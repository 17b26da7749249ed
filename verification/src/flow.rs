//! In what order the steps of a layer stand, and what each reads of the ones
//! before it.

use crate::forward::{
    bf16_weight, ffn_steps, gdn_steps, gemm, gqa_steps, gqa_token_steps, host_weight, layer_steps,
    norm_steps, pass_at, recur_step, row, GemmSlot, GemmSource, NormSlot, Pass, Plane, Step,
};
use crate::model::{LayerKind, ModelConfig};
use crate::weights::LayerWeights;
use vstd::prelude::*;

verus! {

/// The planes a step reads. The cache and the recurrent states are no planes.
pub open spec fn reads(step: Step, plane: Plane) -> bool {
    match step {
        Step::Copy | Step::Norm { .. } => plane == Plane::Stream,
        Step::Gemm { from, .. } => plane == from,
        Step::QueryNorm { .. } => plane == Plane::Query,
        Step::KeyNorm { .. } => plane == Plane::Key,
        Step::Rope { .. } => plane == Plane::Query || plane == Plane::Key,
        Step::StoreKv { .. } => plane == Plane::Key || plane == Plane::Value,
        Step::Attend { .. } => plane == Plane::Query,
        Step::Conv { .. } => plane == Plane::Feature,
        Step::Recur { gates, gate, .. } => {
            ||| plane == Plane::Convolved
            ||| plane == Plane::Gates && gates is Some
            ||| plane == Plane::Feature && gate is Some
        },
        Step::Activate => plane == Plane::FfnGate || plane == Plane::FfnUp,
        Step::AddDelta => plane == Plane::Stream || plane == Plane::Delta,
        Step::Advance { .. } => false,
    }
}

/// The planes a step writes.
pub open spec fn writes(step: Step, plane: Plane) -> bool {
    match step {
        Step::Copy | Step::Norm { .. } => plane == Plane::Normed,
        Step::Gemm { to, .. } => plane == to,
        Step::QueryNorm { .. } => plane == Plane::Query,
        Step::KeyNorm { .. } => plane == Plane::Key,
        Step::Rope { .. } => plane == Plane::Query || plane == Plane::Key,
        Step::StoreKv { .. } | Step::Advance { .. } => false,
        Step::Attend { .. } => plane == Plane::Attended,
        Step::Conv { .. } => plane == Plane::Convolved,
        Step::Recur { .. } => plane == Plane::Readout,
        Step::Activate => plane == Plane::Active,
        Step::AddDelta => plane == Plane::Stream,
    }
}

/// The plane was written before step `s`, and the stream has not moved on
/// since.
pub open spec fn is_fresh(steps: Seq<Step>, plane: Plane, s: int) -> bool {
    exists|t: int| is_fresh_from(steps, plane, t, s)
}

pub open spec fn is_fresh_from(steps: Seq<Step>, plane: Plane, t: int, s: int) -> bool {
    &&& 0 <= t < s <= steps.len()
    &&& writes(steps[t], plane)
    &&& forall|u: int| t < u < s ==> !(#[trigger] steps[u] is AddDelta)
}

/// Where the parts of a layer begin: the block, the first sum, the second
/// norm, the feed-forward block.
pub open spec fn block_at(config: ModelConfig, lw: LayerWeights, pass: Pass) -> int {
    if lw.norm_in@.len() > 0 {
        pass.tokens as int
    } else {
        1
    }
}

pub open spec fn block_len(lw: LayerWeights, pass: Pass) -> int {
    match lw.kind {
        LayerKind::Gqa => 5 + 4 * pass.tokens,
        LayerKind::Gdn => 3 + (if lw.gdn_ab.m > 0 {
            1int
        } else {
            0
        }) + pass.tokens,
    }
}

pub open spec fn first_sum_at(config: ModelConfig, lw: LayerWeights, pass: Pass) -> int {
    block_at(config, lw, pass) + block_len(lw, pass)
}

pub open spec fn ffn_at(config: ModelConfig, lw: LayerWeights, pass: Pass) -> int {
    first_sum_at(config, lw, pass) + 1 + (if lw.norm_post@.len() > 0 {
        pass.tokens as int
    } else {
        1
    })
}

proof fn token_steps_len(config: ModelConfig, pass: Pass, n: int)
    requires
        0 <= n,
    ensures
        gqa_token_steps(config, pass, n).len() == 4 * n,
    decreases n,
{
    if n > 0 {
        token_steps_len(config, pass, n - 1);
    }
}

/// The four steps of a token stand together.
proof fn token_steps_at(config: ModelConfig, pass: Pass, n: int, i: int)
    requires
        0 <= i < n,
    ensures
        ({
            let steps = gqa_token_steps(config, pass, n);
            let query = row(i, config.q_width());
            let key = row(i, config.kv_width());
            &&& steps.len() == 4 * n
            &&& steps[4 * i] == (Step::QueryNorm { row: query, heads: config.num_q_heads })
            &&& steps[4 * i + 1] == (Step::KeyNorm { row: key, heads: config.num_kv_heads })
            &&& steps[4 * i + 2] == (Step::Rope { query, key, position: pass.position(i) as u64 })
            &&& steps[4 * i + 3] == (Step::StoreKv { row: key })
        }),
    decreases n,
{
    token_steps_len(config, pass, n);
    token_steps_len(config, pass, n - 1);
    let steps = gqa_token_steps(config, pass, n);
    let front = gqa_token_steps(config, pass, n - 1);
    if i < n - 1 {
        token_steps_at(config, pass, n - 1, i);
        assert(steps[4 * i] == front[4 * i]);
        assert(steps[4 * i + 1] == front[4 * i + 1]);
        assert(steps[4 * i + 2] == front[4 * i + 2]);
        assert(steps[4 * i + 3] == front[4 * i + 3]);
    }
}

/// Five stretches one after the other.
proof fn joined(a: Seq<Step>, b: Seq<Step>, c: Seq<Step>, d: Seq<Step>, e: Seq<Step>)
    ensures
        ({
            let all = a + b + c + d + e;
            let (p, q) = (a.len() as int, (a.len() + b.len()) as int);
            let r = q + c.len();
            let t = r + d.len();
            &&& all.len() == t + e.len()
            &&& forall|s: int| 0 <= s < p ==> #[trigger] all[s] == a[s]
            &&& forall|s: int| p <= s < q ==> #[trigger] all[s] == b[s - p]
            &&& forall|s: int| q <= s < r ==> #[trigger] all[s] == c[s - q]
            &&& forall|s: int| r <= s < t ==> #[trigger] all[s] == d[s - r]
            &&& forall|s: int| t <= s < t + e.len() ==> #[trigger] all[s] == e[s - t]
        }),
{
}

proof fn block_is_as_long(config: ModelConfig, lw: LayerWeights, pass: Pass)
    ensures
        lw.kind == LayerKind::Gqa ==> gqa_steps(config, lw, pass).len() == block_len(lw, pass),
        lw.kind == LayerKind::Gdn ==> gdn_steps(config, lw, pass).len() == block_len(lw, pass),
{
    token_steps_len(config, pass, pass.tokens as int);
}

/// The parts of a layer, in their places.
proof fn parts_stand(config: ModelConfig, lw: LayerWeights, pass: Pass)
    ensures
        ({
            let steps = layer_steps(config, lw, pass);
            let n = pass.tokens as int;
            let hidden = config.hidden as int;
            let a = norm_steps(n, hidden, NormSlot::Input, lw.norm_in@.len() > 0);
            let b = match lw.kind {
                LayerKind::Gqa => gqa_steps(config, lw, pass),
                LayerKind::Gdn => gdn_steps(config, lw, pass),
            };
            let d = norm_steps(n, hidden, NormSlot::PostAttention, lw.norm_post@.len() > 0);
            let at = block_at(config, lw, pass);
            let sum = first_sum_at(config, lw, pass);
            let ffn = ffn_at(config, lw, pass);
            &&& a.len() == at
            &&& b.len() == block_len(lw, pass)
            &&& d.len() == ffn - sum - 1
            &&& steps.len() == ffn + 6
            &&& forall|s: int| 0 <= s < at ==> #[trigger] steps[s] == a[s]
            &&& forall|s: int| at <= s < sum ==> #[trigger] steps[s] == b[s - at]
            &&& steps[sum] == Step::AddDelta
            &&& forall|s: int| sum < s < ffn ==> #[trigger] steps[s] == d[s - sum - 1]
            &&& steps[ffn] == (Step::Gemm {
                call: gemm(config, lw, GemmSlot::FfnGate),
                from: Plane::Normed,
                to: Plane::FfnGate,
            })
            &&& steps[ffn + 1] == (Step::Gemm {
                call: gemm(config, lw, GemmSlot::FfnUp),
                from: Plane::Normed,
                to: Plane::FfnUp,
            })
            &&& steps[ffn + 2] == Step::Activate
            &&& steps[ffn + 3] == (Step::Gemm {
                call: gemm(config, lw, GemmSlot::FfnDown),
                from: Plane::Active,
                to: Plane::Delta,
            })
            &&& steps[ffn + 4] == Step::AddDelta
            &&& steps[ffn + 5] == (Step::Advance { by: pass.tokens })
        }),
{
    let n = pass.tokens as int;
    let hidden = config.hidden as int;
    let a = norm_steps(n, hidden, NormSlot::Input, lw.norm_in@.len() > 0);
    let b = match lw.kind {
        LayerKind::Gqa => gqa_steps(config, lw, pass),
        LayerKind::Gdn => gdn_steps(config, lw, pass),
    };
    let c = seq![Step::AddDelta];
    let d = norm_steps(n, hidden, NormSlot::PostAttention, lw.norm_post@.len() > 0);
    let e = ffn_steps(config, lw, pass);
    block_is_as_long(config, lw, pass);
    joined(a, b, c, d, e);
    let ffn = ffn_at(config, lw, pass);
    let steps = layer_steps(config, lw, pass);
    assert(steps == a + b + c + d + e);
    assert(steps[ffn] == e[0]);
    assert(steps[ffn + 1] == e[1]);
    assert(steps[ffn + 2] == e[2]);
    assert(steps[ffn + 3] == e[3]);
    assert(steps[ffn + 4] == e[4]);
    assert(steps[ffn + 5] == e[5]);
}

/// The block of an attention layer, in its places.
proof fn attention_stands(config: ModelConfig, lw: LayerWeights, pass: Pass)
    requires
        lw.kind == LayerKind::Gqa,
    ensures
        ({
            let steps = layer_steps(config, lw, pass);
            let at = block_at(config, lw, pass);
            let n = pass.tokens as int;
            &&& steps[at] == (Step::Gemm {
                call: gemm(config, lw, GemmSlot::Query),
                from: Plane::Normed,
                to: Plane::Query,
            })
            &&& steps[at + 1] == (Step::Gemm {
                call: gemm(config, lw, GemmSlot::Key),
                from: Plane::Normed,
                to: Plane::Key,
            })
            &&& steps[at + 2] == (Step::Gemm {
                call: gemm(config, lw, GemmSlot::Value),
                from: Plane::Normed,
                to: Plane::Value,
            })
            &&& forall|s: int|
                at + 3 <= s < at + 3 + 4 * n ==> #[trigger] steps[s] == gqa_token_steps(
                    config,
                    pass,
                    n,
                )[s - at - 3]
            &&& steps[at + 3 + 4 * n] == (Step::Attend { tokens: pass.tokens })
            &&& steps[at + 4 + 4 * n] == (Step::Gemm {
                call: gemm(config, lw, GemmSlot::AttnOut),
                from: Plane::Attended,
                to: Plane::Delta,
            })
        }),
{
    parts_stand(config, lw, pass);
    let n = pass.tokens as int;
    token_steps_len(config, pass, n);
    let steps = layer_steps(config, lw, pass);
    let at = block_at(config, lw, pass);
    let b = gqa_steps(config, lw, pass);
    let tokens = gqa_token_steps(config, pass, n);
    assert(steps[at] == b[0]);
    assert(steps[at + 1] == b[1]);
    assert(steps[at + 2] == b[2]);
    assert forall|s: int| at + 3 <= s < at + 3 + 4 * n implies #[trigger] steps[s] == tokens[s - at
        - 3] by {
        assert(steps[s] == b[s - at]);
    }
    assert(steps[at + 3 + 4 * n] == b[3 + 4 * n]);
    assert(steps[at + 4 + 4 * n] == b[4 + 4 * n]);
}

/// Every step between two places of an attention layer is one of some token.
proof fn token_step_of(config: ModelConfig, lw: LayerWeights, pass: Pass, s: int) -> (i: int)
    requires
        lw.kind == LayerKind::Gqa,
        block_at(config, lw, pass) + 3 <= s < block_at(config, lw, pass) + 3 + 4 * pass.tokens,
    ensures
        ({
            let steps = layer_steps(config, lw, pass);
            let t = block_at(config, lw, pass) + 3 + 4 * i;
            let query = row(i, config.q_width());
            let key = row(i, config.kv_width());
            &&& 0 <= i < pass.tokens
            &&& t <= s < t + 4
            &&& steps[t] == (Step::QueryNorm { row: query, heads: config.num_q_heads })
            &&& steps[t + 1] == (Step::KeyNorm { row: key, heads: config.num_kv_heads })
            &&& steps[t + 2] == (Step::Rope { query, key, position: pass.position(i) as u64 })
            &&& steps[t + 3] == (Step::StoreKv { row: key })
        }),
{
    let at = block_at(config, lw, pass) + 3;
    let i = (s - at) / 4;
    attention_stands(config, lw, pass);
    token_steps_at(config, pass, pass.tokens as int, i);
    i
}

/// In an attention layer every token has its query and its key normed, then
/// both rotated to the token's position, then the key placed in the cache, and
/// only then does anything attend: each step on the token's own rows, and none
/// of them done again. A token alone is rotated to the sequence's position.
pub proof fn keys_are_normed_rotated_and_cached_in_that_order(
    config: ModelConfig,
    lw: LayerWeights,
    pass: Pass,
    i: int,
) -> (s: int)
    requires
        pass.fits(config, lw),
        lw.kind == LayerKind::Gqa,
        0 <= i < pass.tokens,
    ensures
        ({
            let steps = layer_steps(config, lw, pass);
            let width = config.num_kv_heads * config.head_dim;
            let query_width = config.num_q_heads * config.head_dim;
            &&& 3 <= s < steps.len()
            &&& steps[s] matches Step::StoreKv { row } && row.start == i * width && row.len == width
            &&& steps[s - 1] matches Step::Rope { query, key, position } && key.start == i * width
                && key.len == width && query.start == i * query_width && query.len == query_width
                && position == (if pass.tokens == 1 {
                pass.seq_pos as int
            } else {
                i * pass.layers + pass.layer
            })
            &&& steps[s - 2] matches Step::KeyNorm { row, heads } && row.start == i * width
                && row.len == width && heads == config.num_kv_heads
            &&& steps[s - 3] matches Step::QueryNorm { row, heads } && row.start == i * query_width
                && row.len == query_width && heads == config.num_q_heads
            &&& forall|t: int|
                0 <= t < steps.len() && #[trigger] steps[t] is Attend ==> s < t
            &&& forall|t: int|
                0 <= t < steps.len() && width > 0 ==> (#[trigger] steps[t] matches Step::StoreKv {
                    row,
                } ==> row.start == i * width ==> t == s)
            &&& forall|t: int|
                0 <= t < steps.len() && width > 0 ==> (#[trigger] steps[t] matches Step::Rope {
                    key,
                    ..
                } ==> key.start == i * width ==> t == s - 1)
            &&& forall|t: int|
                0 <= t < steps.len() && width > 0 ==> (#[trigger] steps[t] matches Step::KeyNorm {
                    row,
                    ..
                } ==> row.start == i * width ==> t == s - 2)
        }),
{
    let steps = layer_steps(config, lw, pass);
    let at = block_at(config, lw, pass);
    let n = pass.tokens as int;
    let width = config.kv_width();
    let s = at + 3 + 4 * i + 3;
    parts_stand(config, lw, pass);
    attention_stands(config, lw, pass);
    token_steps_at(config, pass, n, i);
    own_rows(i, n, width);
    own_rows(i, n, config.q_width());
    assert(0 <= i * pass.layers && i * pass.layers <= n * pass.layers) by (nonlinear_arith)
        requires
            0 <= i <= n,
    ;
    assert forall|t: int| 0 <= t < steps.len() implies {
        &&& #[trigger] steps[t] is Attend ==> s < t
        &&& width > 0 ==> (steps[t] matches Step::StoreKv { row } ==> row.start == i * width ==> t
            == s)
        &&& width > 0 ==> (steps[t] matches Step::Rope { key, .. } ==> key.start == i * width ==> t
            == s - 1)
        &&& width > 0 ==> (steps[t] matches Step::KeyNorm { row, .. } ==> row.start == i * width
            ==> t == s - 2)
    } by {
        if at + 3 <= t < at + 3 + 4 * n {
            let j = token_step_of(config, lw, pass, t);
            own_rows(j, n, width);
            if j != i && width > 0 {
                assert(j * width != i * width) by (nonlinear_arith)
                    requires
                        j != i,
                        width > 0,
                ;
            }
        } else {
            outside_tokens(config, lw, pass, t);
        }
    }
    s
}

proof fn own_rows(i: int, n: int, width: int)
    requires
        0 <= i < n,
        0 <= width,
        n * width <= u64::MAX,
    ensures
        0 <= i * width <= u64::MAX,
        width <= u64::MAX,
{
    assert(0 <= i * width && i * width + width <= n * width) by (nonlinear_arith)
        requires
            0 <= i,
            i + 1 <= n,
            0 <= width,
    ;
}

/// No step of an attention layer but those of its tokens norms, rotates or
/// places a key, and none but one attends.
proof fn outside_tokens(config: ModelConfig, lw: LayerWeights, pass: Pass, t: int)
    requires
        lw.kind == LayerKind::Gqa,
        0 <= t < layer_steps(config, lw, pass).len(),
        !(block_at(config, lw, pass) + 3 <= t < block_at(config, lw, pass) + 3 + 4 * pass.tokens),
    ensures
        ({
            let step = layer_steps(config, lw, pass)[t];
            &&& !(step is StoreKv)
            &&& !(step is Rope)
            &&& !(step is KeyNorm)
            &&& !(step is QueryNorm)
            &&& step is Attend ==> t == block_at(config, lw, pass) + 3 + 4 * pass.tokens
        }),
{
    parts_stand(config, lw, pass);
    attention_stands(config, lw, pass);
    let at = block_at(config, lw, pass);
    let sum = first_sum_at(config, lw, pass);
    let ffn = ffn_at(config, lw, pass);
    let n = pass.tokens as int;
    if t < at || sum < t < ffn {
    } else if t < sum {
        assert(t == at || t == at + 1 || t == at + 2 || t == at + 3 + 4 * n || t == at + 4 + 4 * n);
    } else {
        assert(t == sum || t == ffn || t == ffn + 1 || t == ffn + 2 || t == ffn + 3 || t == ffn + 4
            || t == ffn + 5);
    }
}

/// An attention layer attends once, for every token, over a cache that holds
/// each of their keys by then.
pub proof fn attention_comes_after_every_key(
    config: ModelConfig,
    lw: LayerWeights,
    pass: Pass,
    s: int,
)
    requires
        lw.kind == LayerKind::Gqa,
        0 <= s < layer_steps(config, lw, pass).len(),
        layer_steps(config, lw, pass)[s] is Attend,
    ensures
        ({
            let steps = layer_steps(config, lw, pass);
            &&& steps[s] == (Step::Attend { tokens: pass.tokens })
            &&& forall|t: int|
                0 <= t < steps.len() && #[trigger] steps[t] is Attend ==> t == s
            &&& forall|t: int|
                0 <= t < steps.len() && (#[trigger] steps[t] is StoreKv || steps[t] is Rope
                    || steps[t] is KeyNorm || steps[t] is QueryNorm) ==> t < s
        }),
{
    let steps = layer_steps(config, lw, pass);
    let at = block_at(config, lw, pass);
    let n = pass.tokens as int;
    attention_stands(config, lw, pass);
    assert forall|t: int| 0 <= t < steps.len() implies {
        &&& #[trigger] steps[t] is Attend ==> t == at + 3 + 4 * n
        &&& steps[t] is StoreKv || steps[t] is Rope || steps[t] is KeyNorm || steps[t] is QueryNorm
            ==> t < at + 3 + 4 * n
    } by {
        if at + 3 <= t < at + 3 + 4 * n {
            let j = token_step_of(config, lw, pass, t);
        } else {
            outside_tokens(config, lw, pass, t);
        }
    }
    assert(steps[s] is Attend);
}

/// Where a recurrent layer's recurrences begin.
pub open spec fn recur_at(config: ModelConfig, lw: LayerWeights, pass: Pass) -> int {
    block_at(config, lw, pass) + 2 + (if lw.gdn_ab.m > 0 {
        1int
    } else {
        0
    })
}

/// The block of a recurrent layer, in its places.
proof fn recurrence_stands(config: ModelConfig, lw: LayerWeights, pass: Pass)
    requires
        lw.kind == LayerKind::Gdn,
    ensures
        ({
            let steps = layer_steps(config, lw, pass);
            let at = block_at(config, lw, pass);
            let from = recur_at(config, lw, pass);
            let n = pass.tokens as int;
            &&& steps[at] == (Step::Gemm {
                call: gemm(config, lw, GemmSlot::GdnIn),
                from: Plane::Normed,
                to: Plane::Feature,
            })
            &&& steps[at + 1] == (Step::Conv {
                width: config.conv_width() as u64,
                stride: config.in_width() as u64,
                state: row(lw.gdn_index as int, config.conv_width() * 3),
            })
            &&& lw.gdn_ab.m > 0 ==> steps[at + 2] == (Step::Gemm {
                call: gemm(config, lw, GemmSlot::Gates),
                from: Plane::Normed,
                to: Plane::Gates,
            })
            &&& forall|s: int|
                from <= s < from + n ==> #[trigger] steps[s] == recur_step(config, lw, s - from)
            &&& steps[from + n] == (Step::Gemm {
                call: gemm(config, lw, GemmSlot::GdnOut),
                from: Plane::Readout,
                to: Plane::Delta,
            })
            &&& from + n + 1 == first_sum_at(config, lw, pass)
        }),
{
    parts_stand(config, lw, pass);
    let steps = layer_steps(config, lw, pass);
    let at = block_at(config, lw, pass);
    let from = recur_at(config, lw, pass);
    let n = pass.tokens as int;
    let b = gdn_steps(config, lw, pass);
    assert(steps[at] == b[0]);
    assert(steps[at + 1] == b[1]);
    if lw.gdn_ab.m > 0 {
        assert(steps[at + 2] == b[2]);
    }
    assert forall|s: int| from <= s < from + n implies #[trigger] steps[s] == recur_step(
        config,
        lw,
        s - from,
    ) by {
        assert(steps[s] == b[s - at]);
    }
    assert(steps[from + n] == b[from + n - at]);
}

/// The stream takes a sum twice in a layer: what the block adds, and what the
/// feed-forward block adds.
proof fn two_sums(config: ModelConfig, lw: LayerWeights, pass: Pass, u: int)
    requires
        0 <= u < layer_steps(config, lw, pass).len(),
    ensures
        layer_steps(config, lw, pass)[u] is AddDelta <==> u == first_sum_at(config, lw, pass) || u
            == ffn_at(config, lw, pass) + 4,
{
    parts_stand(config, lw, pass);
    let at = block_at(config, lw, pass);
    let sum = first_sum_at(config, lw, pass);
    let ffn = ffn_at(config, lw, pass);
    let n = pass.tokens as int;
    if at <= u < sum {
        match lw.kind {
            LayerKind::Gqa => {
                attention_stands(config, lw, pass);
                if at + 3 <= u < at + 3 + 4 * n {
                    let j = token_step_of(config, lw, pass, u);
                    let t = at + 3 + 4 * j;
                    assert(u == t || u == t + 1 || u == t + 2 || u == t + 3);
                } else {
                    assert(u == at || u == at + 1 || u == at + 2 || u == at + 3 + 4 * n || u == at
                        + 4 + 4 * n);
                }
            },
            LayerKind::Gdn => {
                recurrence_stands(config, lw, pass);
                let from = recur_at(config, lw, pass);
                if u < from {
                    assert(u == at || u == at + 1 || u == at + 2);
                } else if u < from + n {
                    assert(layer_steps(config, lw, pass)[u] == recur_step(config, lw, u - from));
                } else {
                    assert(u == from + n);
                }
            },
        }
    } else if u >= ffn {
        assert(u == ffn || u == ffn + 1 || u == ffn + 2 || u == ffn + 3 || u == ffn + 4 || u == ffn
            + 5);
    }
}

/// What step `t` wrote is fresh at `s`, where no sum stands between them.
proof fn fresh_from(
    config: ModelConfig,
    lw: LayerWeights,
    pass: Pass,
    plane: Plane,
    t: int,
    s: int,
)
    requires
        0 <= t < s < layer_steps(config, lw, pass).len(),
        writes(layer_steps(config, lw, pass)[t], plane),
        s <= first_sum_at(config, lw, pass) || (first_sum_at(config, lw, pass) <= t && s <= ffn_at(
            config,
            lw,
            pass,
        ) + 4),
    ensures
        is_fresh(layer_steps(config, lw, pass), plane, s),
{
    let steps = layer_steps(config, lw, pass);
    assert forall|u: int| t < u < s implies !(#[trigger] steps[u] is AddDelta) by {
        two_sums(config, lw, pass, u);
    }
    assert(is_fresh_from(steps, plane, t, s));
}

/// Whatever a step reads but the stream, an earlier step of the same half of
/// the layer wrote: nothing is read before it is there, and nothing that was
/// made of a stream that has moved on since.
pub proof fn a_step_reads_what_was_written_before_it(
    config: ModelConfig,
    lw: LayerWeights,
    pass: Pass,
    s: int,
    plane: Plane,
)
    requires
        pass.tokens > 0,
        0 <= s < layer_steps(config, lw, pass).len(),
        plane != Plane::Stream,
        reads(layer_steps(config, lw, pass)[s], plane),
    ensures
        is_fresh(layer_steps(config, lw, pass), plane, s),
{
    parts_stand(config, lw, pass);
    let steps = layer_steps(config, lw, pass);
    let at = block_at(config, lw, pass);
    let sum = first_sum_at(config, lw, pass);
    let ffn = ffn_at(config, lw, pass);
    let n = pass.tokens as int;
    assert(writes(steps[at - 1], Plane::Normed));
    assert(writes(steps[ffn - 1], Plane::Normed));
    if s < at || sum < s < ffn {
    } else if s == sum {
        assert(plane == Plane::Delta);
        match lw.kind {
            LayerKind::Gqa => attention_stands(config, lw, pass),
            LayerKind::Gdn => recurrence_stands(config, lw, pass),
        }
        fresh_from(config, lw, pass, plane, sum - 1, s);
    } else if s >= ffn {
        assert(s == ffn || s == ffn + 1 || s == ffn + 2 || s == ffn + 3 || s == ffn + 4 || s == ffn
            + 5);
        let t = if plane == Plane::Normed {
            ffn - 1
        } else if plane == Plane::FfnGate {
            ffn
        } else if plane == Plane::FfnUp {
            ffn + 1
        } else if plane == Plane::Active {
            ffn + 2
        } else {
            ffn + 3
        };
        fresh_from(config, lw, pass, plane, t, s);
    } else {
        match lw.kind {
            LayerKind::Gqa => {
                attention_stands(config, lw, pass);
                if at + 3 <= s < at + 3 + 4 * n {
                    let j = token_step_of(config, lw, pass, s);
                    let t = at + 3 + 4 * j;
                    assert(s == t || s == t + 1 || s == t + 2 || s == t + 3);
                } else {
                    assert(s == at || s == at + 1 || s == at + 2 || s == at + 3 + 4 * n || s == at
                        + 4 + 4 * n);
                }
                let t = if plane == Plane::Normed {
                    at - 1
                } else if plane == Plane::Query {
                    at
                } else if plane == Plane::Key {
                    at + 1
                } else if plane == Plane::Value {
                    at + 2
                } else {
                    at + 3 + 4 * n
                };
                fresh_from(config, lw, pass, plane, t, s);
            },
            LayerKind::Gdn => {
                recurrence_stands(config, lw, pass);
                let from = recur_at(config, lw, pass);
                if s < from {
                    assert(s == at || s == at + 1 || s == at + 2);
                } else if s < from + n {
                    assert(steps[s] == recur_step(config, lw, s - from));
                } else {
                    assert(s == from + n);
                    assert(steps[from] == recur_step(config, lw, 0));
                }
                let t = if plane == Plane::Normed {
                    at - 1
                } else if plane == Plane::Feature {
                    at
                } else if plane == Plane::Convolved {
                    at + 1
                } else if plane == Plane::Gates {
                    at + 2
                } else {
                    from
                };
                fresh_from(config, lw, pass, plane, t, s);
            },
        }
    }
}

/// Each GEMM of a layer takes the plane its slot is a projection of to the
/// plane it is named for.
pub proof fn a_gemm_reads_and_writes_what_its_slot_names(
    config: ModelConfig,
    lw: LayerWeights,
    pass: Pass,
    s: int,
)
    requires
        0 <= s < layer_steps(config, lw, pass).len(),
    ensures
        layer_steps(config, lw, pass)[s] matches Step::Gemm { call, from, to } ==> match call.slot {
            GemmSlot::Query => from == Plane::Normed && to == Plane::Query,
            GemmSlot::Key => from == Plane::Normed && to == Plane::Key,
            GemmSlot::Value => from == Plane::Normed && to == Plane::Value,
            GemmSlot::AttnOut => from == Plane::Attended && to == Plane::Delta,
            GemmSlot::GdnIn => from == Plane::Normed && to == Plane::Feature,
            GemmSlot::GdnOut => from == Plane::Readout && to == Plane::Delta,
            GemmSlot::Gates => from == Plane::Normed && to == Plane::Gates,
            GemmSlot::FfnGate => from == Plane::Normed && to == Plane::FfnGate,
            GemmSlot::FfnUp => from == Plane::Normed && to == Plane::FfnUp,
            GemmSlot::FfnDown => from == Plane::Active && to == Plane::Delta,
        },
{
    parts_stand(config, lw, pass);
    let steps = layer_steps(config, lw, pass);
    let at = block_at(config, lw, pass);
    let sum = first_sum_at(config, lw, pass);
    let ffn = ffn_at(config, lw, pass);
    let n = pass.tokens as int;
    if s < at || sum <= s < ffn {
    } else if s >= ffn {
        assert(s == ffn || s == ffn + 1 || s == ffn + 2 || s == ffn + 3 || s == ffn + 4 || s == ffn
            + 5);
    } else {
        match lw.kind {
            LayerKind::Gqa => {
                attention_stands(config, lw, pass);
                if at + 3 <= s < at + 3 + 4 * n {
                    let j = token_step_of(config, lw, pass, s);
                    let t = at + 3 + 4 * j;
                    assert(s == t || s == t + 1 || s == t + 2 || s == t + 3);
                } else {
                    assert(s == at || s == at + 1 || s == at + 2 || s == at + 3 + 4 * n || s == at
                        + 4 + 4 * n);
                }
            },
            LayerKind::Gdn => {
                recurrence_stands(config, lw, pass);
                let from = recur_at(config, lw, pass);
                if s < from {
                    assert(s == at || s == at + 1 || s == at + 2);
                } else if s < from + n {
                    assert(steps[s] == recur_step(config, lw, s - from));
                } else {
                    assert(s == from + n);
                }
            },
        }
    }
}

/// A layer runs every GEMM of its kind once, in order, whatever the number of
/// tokens: the projections in, the projection out, and the three of the
/// feed-forward block. Gives their places.
pub proof fn a_layer_runs_every_gemm_of_its_kind(
    config: ModelConfig,
    lw: LayerWeights,
    pass: Pass,
) -> (places: (int, int, int, int))
    ensures
        ({
            let steps = layer_steps(config, lw, pass);
            let (into, out, up, down) = places;
            &&& 0 <= into < out < up < down < steps.len()
            &&& steps[into] matches Step::Gemm { call, .. } && call.slot == (match lw.kind {
                LayerKind::Gqa => GemmSlot::Query,
                LayerKind::Gdn => GemmSlot::GdnIn,
            })
            &&& lw.kind == LayerKind::Gqa ==> {
                &&& steps[into + 1] matches Step::Gemm { call, .. } && call.slot == GemmSlot::Key
                &&& steps[into + 2] matches Step::Gemm { call, .. } && call.slot
                    == GemmSlot::Value
            }
            &&& steps[out] matches Step::Gemm { call, .. } && call.slot == (match lw.kind {
                LayerKind::Gqa => GemmSlot::AttnOut,
                LayerKind::Gdn => GemmSlot::GdnOut,
            })
            &&& steps[out + 1] is AddDelta
            &&& steps[up - 1] matches Step::Gemm { call, .. } && call.slot == GemmSlot::FfnGate
            &&& steps[up] matches Step::Gemm { call, .. } && call.slot == GemmSlot::FfnUp
            &&& steps[up + 1] is Activate
            &&& steps[down] matches Step::Gemm { call, .. } && call.slot == GemmSlot::FfnDown
            &&& steps[down + 1] is AddDelta
            &&& steps.last() == (Step::Advance { by: pass.tokens })
            &&& steps.len() == down + 3
        }),
{
    parts_stand(config, lw, pass);
    match lw.kind {
        LayerKind::Gqa => attention_stands(config, lw, pass),
        LayerKind::Gdn => recurrence_stands(config, lw, pass),
    }
    let ffn = ffn_at(config, lw, pass);
    (block_at(config, lw, pass), first_sum_at(config, lw, pass) - 1, ffn + 1, ffn + 3)
}

/// Each half of a layer norms the stream first, every token's row of it in
/// turn, by the norm that half is named for; a layer without that norm takes
/// the stream as it is. The second half begins where the first has been added
/// to the stream; gives that place.
pub proof fn every_row_is_normed_ahead_of_its_half(
    config: ModelConfig,
    lw: LayerWeights,
    pass: Pass,
    i: int,
) -> (sum: int)
    requires
        pass.fits(config, lw),
        0 <= i < pass.tokens,
    ensures
        ({
            let steps = layer_steps(config, lw, pass);
            &&& 0 < sum < steps.len()
            &&& steps[sum] is AddDelta
            &&& forall|t: int| 0 <= t < sum ==> !(#[trigger] steps[t] is AddDelta)
            &&& lw.norm_in@.len() == 0 ==> steps[0] is Copy
            &&& lw.norm_post@.len() == 0 ==> steps[sum + 1] is Copy
        }),
        lw.norm_in@.len() > 0 ==> {
            &&& layer_steps(config, lw, pass)[i] matches Step::Norm { slot, row } && slot
                == NormSlot::Input && row.start == i * config.hidden && row.len == config.hidden
            &&& !(layer_steps(config, lw, pass)[pass.tokens as int] is Norm)
        },
        lw.norm_post@.len() > 0 ==> {
            &&& layer_steps(config, lw, pass)[sum + 1 + i] matches Step::Norm { slot, row } && slot
                == NormSlot::PostAttention && row.start == i * config.hidden && row.len
                == config.hidden
            &&& !(layer_steps(config, lw, pass)[sum + 1 + pass.tokens] is Norm)
        },
{
    let steps = layer_steps(config, lw, pass);
    let sum = first_sum_at(config, lw, pass);
    let (n, hidden) = (pass.tokens as int, config.hidden as int);
    parts_stand(config, lw, pass);
    own_rows(i, n, hidden);
    block_begins_with_a_gemm(config, lw, pass);
    assert forall|t: int| 0 <= t < sum implies !(#[trigger] steps[t] is AddDelta) by {
        two_sums(config, lw, pass, t);
    }
    if lw.norm_in@.len() > 0 {
        let a = norm_steps(n, hidden, NormSlot::Input, true);
        assert(steps[i] == a[i]);
    }
    if lw.norm_post@.len() > 0 {
        let d = norm_steps(n, hidden, NormSlot::PostAttention, true);
        assert(steps[sum + 1 + i] == d[i]);
        assert(sum + 1 + n == ffn_at(config, lw, pass));
    }
    sum
}

proof fn block_begins_with_a_gemm(config: ModelConfig, lw: LayerWeights, pass: Pass)
    ensures
        layer_steps(config, lw, pass)[block_at(config, lw, pass)] is Gemm,
{
    match lw.kind {
        LayerKind::Gqa => attention_stands(config, lw, pass),
        LayerKind::Gdn => recurrence_stands(config, lw, pass),
    }
}

/// A recurrent layer convolves before it recurs, and recurs token by token in
/// order: each on the key and value of its own convolved row, which follow the
/// query and fill the row, on its own gate and beta, half a gate row apart, and
/// on the layer's own state. Its readout is its own row, gated by what is left
/// of its input row past the convolved part.
pub proof fn recurrences_run_in_token_order(
    config: ModelConfig,
    lw: LayerWeights,
    pass: Pass,
    i: int,
) -> (s: int)
    requires
        pass.fits(config, lw),
        lw.kind == LayerKind::Gdn,
        0 <= i < pass.tokens,
    ensures
        ({
            let steps = layer_steps(config, lw, pass);
            let conv = config.gdn_q_width + config.gdn_state_cols + config.gdn_state_rows;
            let wide = conv + config.gdn_z_width;
            let state = config.gdn_state_rows * config.gdn_state_cols;
            let index = lw.gdn_index as int;
            &&& 0 <= s - i < s + 1 < steps.len()
            &&& steps[s] matches Step::Recur { key, value, gates, state: held, gate, out } && {
                &&& key.start == i * conv + config.gdn_q_width
                &&& key.len == config.gdn_state_cols
                &&& value.start == key.start + key.len
                &&& value.len == config.gdn_state_rows
                &&& value.start + value.len == (i + 1) * conv
                &&& gates is Some <==> lw.gdn_ab.m > 0
                &&& gates matches Some(g) ==> g.gate == i * lw.gdn_ab.m && g.beta == g.gate
                    + lw.gdn_ab.m / 2
                &&& held.start == index * state
                &&& held.len == state
                &&& gate is Some <==> config.gdn_z_width > 0
                &&& gate matches Some(z) ==> z.start == i * wide + conv && z.start + z.len == (i
                    + 1) * wide
                &&& out.start == i * config.gdn_state_rows
                &&& out.len == config.gdn_state_rows
            }
            &&& forall|t: int|
                0 <= t < steps.len() && #[trigger] steps[t] is Recur ==> s - i <= t < s - i
                    + pass.tokens
            &&& exists|c: int|
                0 <= c < s - i && (#[trigger] steps[c] matches Step::Conv {
                    width,
                    stride,
                    state: rolled,
                } && width == conv && stride == wide && rolled.start == index * (conv * 3)
                    && rolled.len == conv * 3)
        }),
{
    parts_stand(config, lw, pass);
    recurrence_stands(config, lw, pass);
    let steps = layer_steps(config, lw, pass);
    let at = block_at(config, lw, pass);
    let from = recur_at(config, lw, pass);
    let n = pass.tokens as int;
    let conv = config.conv_width();
    let wide = config.in_width();
    let s = from + i;
    let index = lw.gdn_index as int;
    let mat = config.state_elems();
    assert(n * conv <= n * wide) by (nonlinear_arith)
        requires
            0 <= n,
            conv <= wide,
    ;
    own_rows(i, n, conv);
    own_rows(i, n, wide);
    own_rows(i, n, config.gdn_state_rows as int);
    own_rows(i, n, lw.gdn_ab.m as int);
    assert(0 <= mat) by (nonlinear_arith)
        requires
            mat == config.gdn_state_rows * config.gdn_state_cols,
    ;
    assert(mat * (index + 1) == (index + 1) * mat) by (nonlinear_arith);
    own_rows(index, index + 1, mat);
    assert(conv * 3 * (index + 1) == (index + 1) * (conv * 3)) by (nonlinear_arith);
    own_rows(index, index + 1, conv * 3);
    assert((i + 1) * conv == i * conv + conv) by (nonlinear_arith);
    assert((i + 1) * wide == i * wide + wide) by (nonlinear_arith);
    assert(i * conv + conv <= n * conv) by (nonlinear_arith)
        requires
            0 <= i,
            i + 1 <= n,
            0 <= conv,
    ;
    assert(i * wide + wide <= n * wide) by (nonlinear_arith)
        requires
            0 <= i,
            i + 1 <= n,
            0 <= wide,
    ;
    let ab = lw.gdn_ab.m as int;
    assert(i * ab + ab <= n * ab) by (nonlinear_arith)
        requires
            0 <= i,
            i + 1 <= n,
            0 <= ab,
    ;
    assert(steps[s] == recur_step(config, lw, i));
    assert(steps[at + 1] is Conv);
    assert forall|t: int| 0 <= t < steps.len() && #[trigger] steps[t] is Recur implies from <= t
        < from + n by {
        let sum = first_sum_at(config, lw, pass);
        let ffn = ffn_at(config, lw, pass);
        if at <= t < from {
            assert(t == at || t == at + 1 || t == at + 2);
        } else if t >= ffn {
            assert(t == ffn || t == ffn + 1 || t == ffn + 2 || t == ffn + 3 || t == ffn + 4 || t
                == ffn + 5);
        } else if t >= from + n {
            assert(t == from + n || t == sum || sum < t < ffn);
        }
    }
    s
}

/// The projections a plane fuses stand in it one after the other: the query's
/// rows first, the key's where they end, the value's where those end, and the
/// rows of the feed-forward block's second half where its first half ends. A
/// projection out takes in as many elements as the block gives.
pub proof fn fused_rows_follow_one_another(config: ModelConfig, lw: LayerWeights)
    requires
        config.countable(),
        config.q_width() + config.kv_width() + config.kv_width() <= u64::MAX,
    ensures
        ({
            let query = gemm(config, lw, GemmSlot::Query);
            let key = gemm(config, lw, GemmSlot::Key);
            let value = gemm(config, lw, GemmSlot::Value);
            let gate = gemm(config, lw, GemmSlot::FfnGate);
            let up = gemm(config, lw, GemmSlot::FfnUp);
            let out = gemm(config, lw, GemmSlot::AttnOut);
            let down = gemm(config, lw, GemmSlot::FfnDown);
            &&& query.m == config.num_q_heads * config.head_dim
            &&& key.m == config.num_kv_heads * config.head_dim
            &&& value.m == key.m
            &&& query.k == config.hidden && key.k == config.hidden && value.k == config.hidden
            &&& query.row_off == 0
            &&& !(key.source is Host) ==> key.row_off == query.row_off + query.m
            &&& !(value.source is Host) ==> value.row_off == key.row_off + key.m
            &&& gate.m == config.ffn_intermediate && up.m == gate.m
            &&& gate.k == config.hidden && up.k == config.hidden
            &&& gate.row_off == 0
            &&& !(up.source is Host) ==> up.row_off == gate.row_off + gate.m
            &&& out.k == query.m && out.m == config.hidden && out.row_off == 0
            &&& down.k == gate.m && down.m == config.hidden && down.row_off == 0
            &&& gemm(config, lw, GemmSlot::GdnIn).m == config.gdn_q_width + config.gdn_state_cols
                + config.gdn_state_rows + config.gdn_z_width
            &&& gemm(config, lw, GemmSlot::GdnIn).k == config.hidden
            &&& gemm(config, lw, GemmSlot::GdnIn).row_off == 0
            &&& gemm(config, lw, GemmSlot::GdnOut).k == config.gdn_state_rows
            &&& gemm(config, lw, GemmSlot::GdnOut).m == config.hidden
            &&& gemm(config, lw, GemmSlot::GdnOut).row_off == 0
            &&& gemm(config, lw, GemmSlot::Gates).m == lw.gdn_ab.m
            &&& gemm(config, lw, GemmSlot::Gates).k == config.hidden
            &&& gemm(config, lw, GemmSlot::Gates).row_off == 0
        }),
{
}

/// A GEMM reads the plane on the device wherever its layer has one for it, the
/// unquantized weight where there is none but that, and a host weight from its
/// first row otherwise. The query, the key and the value share a plane, and so
/// do the two halves of the feed-forward block.
pub proof fn the_device_is_read_before_the_host(config: ModelConfig, lw: LayerWeights)
    ensures
        lw.dev.qkv matches Some(plane) ==> {
            &&& gemm(config, lw, GemmSlot::Query).source == GemmSource::Device(plane)
            &&& gemm(config, lw, GemmSlot::Key).source == GemmSource::Device(plane)
            &&& gemm(config, lw, GemmSlot::Value).source == GemmSource::Device(plane)
        },
        lw.dev.attn_out matches Some(plane) ==> gemm(config, lw, GemmSlot::AttnOut).source
            == GemmSource::Device(plane),
        lw.dev.gdn_in matches Some(plane) ==> gemm(config, lw, GemmSlot::GdnIn).source
            == GemmSource::Device(plane),
        lw.dev.gdn_out matches Some(plane) ==> gemm(config, lw, GemmSlot::GdnOut).source
            == GemmSource::Device(plane),
        lw.dev.mlp_gate_up matches Some(plane) ==> {
            &&& gemm(config, lw, GemmSlot::FfnGate).source == GemmSource::Device(plane)
            &&& gemm(config, lw, GemmSlot::FfnUp).source == GemmSource::Device(plane)
        },
        lw.dev.mlp_down matches Some(plane) ==> gemm(config, lw, GemmSlot::FfnDown).source
            == GemmSource::Device(plane),
        lw.dev.qkv is None ==> {
            let source = if lw.qkv_bf16.data@.len() > 0 {
                GemmSource::Bf16
            } else {
                GemmSource::Host
            };
            &&& gemm(config, lw, GemmSlot::Query).source == source
            &&& gemm(config, lw, GemmSlot::Key).source == source
            &&& gemm(config, lw, GemmSlot::Value).source == source
        },
        lw.dev.attn_out is None ==> gemm(config, lw, GemmSlot::AttnOut).source == (if
        lw.attn_out_bf16.data@.len() > 0 {
            GemmSource::Bf16
        } else {
            GemmSource::Host
        }),
        lw.dev.gdn_out is None ==> gemm(config, lw, GemmSlot::GdnOut).source == (if
        lw.gdn_out_bf16.data@.len() > 0 {
            GemmSource::Bf16
        } else {
            GemmSource::Host
        }),
        lw.dev.gdn_in is None ==> gemm(config, lw, GemmSlot::GdnIn).source == GemmSource::Host,
        lw.dev.mlp_gate_up is None ==> {
            &&& gemm(config, lw, GemmSlot::FfnGate).source == GemmSource::Host
            &&& gemm(config, lw, GemmSlot::FfnUp).source == GemmSource::Host
        },
        lw.dev.mlp_down is None ==> gemm(config, lw, GemmSlot::FfnDown).source == GemmSource::Host,
        gemm(config, lw, GemmSlot::Gates).source == GemmSource::Bf16,
        forall|slot: GemmSlot| #[trigger]
            gemm(config, lw, slot).source is Host ==> gemm(config, lw, slot).row_off == 0,
        forall|slot: GemmSlot| (#[trigger] gemm(config, lw, slot)).slot == slot,
{
}

/// No two slots of one layer read one host weight: the projections stand in
/// their order, and each half of the feed-forward block has its own.
pub proof fn each_slot_has_its_own_host_weight(lw: LayerWeights)
    ensures
        host_weight(lw, GemmSlot::Query) == lw.projection@[0],
        host_weight(lw, GemmSlot::Key) == lw.projection@[1],
        host_weight(lw, GemmSlot::Value) == lw.projection@[2],
        host_weight(lw, GemmSlot::AttnOut) == lw.projection@[3],
        host_weight(lw, GemmSlot::GdnIn) == lw.projection@[0],
        host_weight(lw, GemmSlot::GdnOut) == lw.gdn_output,
        host_weight(lw, GemmSlot::FfnGate) == lw.ffn_gate,
        host_weight(lw, GemmSlot::FfnUp) == lw.ffn_up,
        host_weight(lw, GemmSlot::FfnDown) == lw.ffn_down,
        bf16_weight(lw, GemmSlot::Query) matches Some(w) ==> w == lw.qkv_bf16,
        bf16_weight(lw, GemmSlot::Key) == bf16_weight(lw, GemmSlot::Query),
        bf16_weight(lw, GemmSlot::Value) == bf16_weight(lw, GemmSlot::Query),
        bf16_weight(lw, GemmSlot::AttnOut) matches Some(w) ==> w == lw.attn_out_bf16,
        bf16_weight(lw, GemmSlot::GdnOut) matches Some(w) ==> w == lw.gdn_out_bf16,
        bf16_weight(lw, GemmSlot::Gates) == Some(lw.gdn_ab),
{
}

/// Every layer of a stack finds the sequence where the layer before it left it,
/// and the first where the pass found it.
pub proof fn each_layer_goes_on_where_the_last_left_off(
    config: ModelConfig,
    lw: LayerWeights,
    tokens: u64,
    layers: int,
    seq_pos: u64,
    layer: int,
)
    requires
        0 <= layer < layers <= u64::MAX,
        seq_pos + layers * tokens <= u64::MAX,
    ensures
        pass_at(tokens, layers, seq_pos, 0).seq_pos == seq_pos,
        ({
            let here = pass_at(tokens, layers, seq_pos, layer);
            let next = pass_at(tokens, layers, seq_pos, layer + 1);
            &&& here.tokens == tokens && here.layer == layer && here.layers == layers
            &&& layer_steps(config, lw, here).last() matches Step::Advance { by } && next.seq_pos
                == here.seq_pos + by
            &&& tokens == 1 ==> here.position(0) == seq_pos + layer
        }),
{
    let here = pass_at(tokens, layers, seq_pos, layer);
    parts_stand(config, lw, here);
    assert((layer + 1) * tokens == layer * tokens + tokens) by (nonlinear_arith);
    assert(0 <= layer * tokens && (layer + 1) * tokens <= layers * tokens) by (nonlinear_arith)
        requires
            0 <= layer,
            layer + 1 <= layers,
    ;
    assert(0 * tokens == 0);
}

/// The shapes a topology demands of a layer are those its GEMMs take: output
/// rows by input width, slot for slot, and nothing of what the layer does not
/// run. Its norms are as wide as the stream, and its head norms as a head.
pub proof fn a_layer_is_demanded_as_its_gemms_take_it(
    config: ModelConfig,
    lw: LayerWeights,
    lg: crate::weights::LayerGeometry,
    kind: LayerKind,
)
    requires
        config.countable(),
        config.q_width() + config.kv_width() + config.kv_width() <= u64::MAX,
        lg.follows(config, kind),
    ensures
        ({
            let of = |slot: GemmSlot| (gemm(config, lw, slot).m, gemm(config, lw, slot).k);
            &&& lg.kind == kind
            &&& kind == LayerKind::Gqa ==> {
                &&& lg.projection@[0] == of(GemmSlot::Query)
                &&& lg.projection@[1] == of(GemmSlot::Key)
                &&& lg.projection@[2] == of(GemmSlot::Value)
                &&& lg.projection@[3] == of(GemmSlot::AttnOut)
                &&& lg.gdn_output == (0u64, 0u64)
                &&& lg.gdn_conv == (0u64, 0u64)
                &&& lg.gdn_ab == (0u64, 0u64)
                &&& lg.qk_norm == config.head_dim
            }
            &&& kind == LayerKind::Gdn ==> {
                &&& lg.projection@[0] == of(GemmSlot::GdnIn)
                &&& lg.gdn_in_proj == of(GemmSlot::GdnIn)
                &&& lg.projection@[1] == (0u64, 0u64)
                &&& lg.projection@[2] == (0u64, 0u64)
                &&& lg.projection@[3] == (0u64, 0u64)
                &&& lg.gdn_output == of(GemmSlot::GdnOut)
                &&& lg.qk_norm == 0
                &&& lg.gdn_conv_channels == config.gdn_q_width + config.gdn_state_cols
                    + config.gdn_state_rows
                &&& lg.gdn_conv_channels > 0 ==> lg.gdn_conv == (4u64, lg.gdn_conv_channels)
                &&& config.gdn_ab_width > 0 ==> lg.gdn_ab == (config.gdn_ab_width, config.hidden)
            }
            &&& lg.ffn_gate == of(GemmSlot::FfnGate)
            &&& lg.ffn_up == of(GemmSlot::FfnUp)
            &&& lg.ffn_down == of(GemmSlot::FfnDown)
            &&& lg.norm_in == config.hidden
            &&& lg.norm_post == config.hidden
        }),
{
}

/// What is offered for a slot is what the GEMMs of that slot read, and what the
/// norms of that name are: the plane on the device where there is one, and the
/// tensor's own words otherwise.
pub proof fn what_fills_a_slot_is_what_is_read_of_it(
    config: ModelConfig,
    was: LayerWeights,
    lw: LayerWeights,
    slot: crate::artifact::TensorSlot,
    offer: crate::artifact::Offer,
)
    requires
        crate::artifact::sits(was, lw, slot, offer),
        offer.serves(slot),
    ensures
        ({
            let source = |of: GemmSlot| gemm(config, lw, of).source;
            match slot {
                crate::artifact::TensorSlot::Qkv => {
                    &&& offer.plane matches Some(p) ==> source(GemmSlot::Query)
                        == GemmSource::Device(p) && source(GemmSlot::Key) == GemmSource::Device(p)
                        && source(GemmSlot::Value) == GemmSource::Device(p)
                    &&& offer.plane is None ==> (offer.tensor matches Some(t)
                        && lw.qkv_bf16.data@ == crate::artifact::words(t.data@) && lw.qkv_bf16.m
                        == t.shape@[0] && lw.qkv_bf16.k == t.shape@[1])
                },
                crate::artifact::TensorSlot::AttnOut => {
                    &&& offer.plane matches Some(p) ==> source(GemmSlot::AttnOut)
                        == GemmSource::Device(p)
                    &&& offer.plane is None ==> (offer.tensor matches Some(t)
                        && lw.attn_out_bf16.data@ == crate::artifact::words(t.data@))
                },
                crate::artifact::TensorSlot::GdnOut => {
                    &&& offer.plane matches Some(p) ==> source(GemmSlot::GdnOut)
                        == GemmSource::Device(p)
                    &&& offer.plane is None ==> (offer.tensor matches Some(t)
                        && lw.gdn_out_bf16.data@ == crate::artifact::words(t.data@))
                },
                crate::artifact::TensorSlot::GdnIn => offer.plane matches Some(p) && source(
                    GemmSlot::GdnIn,
                ) == GemmSource::Device(p),
                crate::artifact::TensorSlot::MlpGateUp => offer.plane matches Some(p) && source(
                    GemmSlot::FfnGate,
                ) == GemmSource::Device(p) && source(GemmSlot::FfnUp) == GemmSource::Device(p),
                crate::artifact::TensorSlot::MlpDown => offer.plane matches Some(p) && source(
                    GemmSlot::FfnDown,
                ) == GemmSource::Device(p),
                crate::artifact::TensorSlot::GdnConv => offer.tensor matches Some(t)
                    && lw.gdn_conv.data@ == crate::artifact::words(t.data@) && lw.gdn_conv.m
                    == t.shape@[0] && lw.gdn_conv.k == t.shape@[1],
                crate::artifact::TensorSlot::GdnAb => offer.tensor matches Some(t)
                    && lw.gdn_ab.data@ == crate::artifact::words(t.data@) && lw.gdn_ab.m
                    == t.shape@[0] && lw.gdn_ab.k == t.shape@[1],
                crate::artifact::TensorSlot::NormIn => offer.tensor matches Some(t) && lw.norm_in@
                    == crate::artifact::words(t.data@),
                crate::artifact::TensorSlot::NormPost => offer.tensor matches Some(t)
                    && lw.norm_post@ == crate::artifact::words(t.data@),
                crate::artifact::TensorSlot::QueryNorm => offer.tensor matches Some(t)
                    && lw.qk_norm@[0]@ == crate::artifact::words(t.data@),
                crate::artifact::TensorSlot::KeyNorm => offer.tensor matches Some(t)
                    && lw.qk_norm@[1]@ == crate::artifact::words(t.data@),
            }
        }),
{
}

} // verus!
