//! The weights of a model in the formats the kernels take, and the geometry a
//! topology demands of them.
//!
//! A GEMM weight has `m` output rows and an input width of `k`.

use crate::bf16::{bf16_ratio, ratio_bits, BF16_ONE, BF16_SIGN};
use crate::model::{gdn_layers, gdn_layers_grow, LayerKind, ModelConfig};
use vstd::prelude::*;

verus! {

/// An NVFP4 GEMM weight: two E2M1 codes to a byte, and an E4M3 scale to every
/// sixteen of them.
#[derive(Debug)]
pub struct Nvfp4Weight {
    /// `[m][k/2]` bytes.
    pub codes: Vec<u8>,
    /// `[m][k/16]` bytes.
    pub scales: Vec<u8>,
    pub m: u64,
    pub k: u64,
}

/// E4M3 one.
pub const SCALE_ONE: u8 = 0x38;

/// Weights of this size can be held.
pub open spec fn holdable(m: int, k: int) -> bool {
    0 <= m && 0 <= k && m * k <= usize::MAX && m * k <= u64::MAX / 8
}

/// The byte at column `b` of row `row` of a synthetic weight.
pub open spec fn synthetic_code(row: int, b: int, seed: u64) -> int {
    (row * 3 + b + seed % 7) % 8 + 16 * ((row * 5 + b + seed % 5) % 8)
}

/// The two codes of a synthetic byte are never negative, and go on from byte to
/// byte by one and from row to row by three and five, around eight.
pub proof fn synthetic_codes_go_around(row: int, b: int, seed: u64)
    requires
        0 <= row,
        0 <= b,
    ensures
        ({
            let code = synthetic_code(row, b, seed);
            let next = synthetic_code(row, b + 1, seed);
            let below = synthetic_code(row + 1, b, seed);
            let first = synthetic_code(0, 0, seed);
            &&& 0 <= code < 128
            &&& code % 16 < 8
            &&& next % 16 == (code % 16 + 1) % 8
            &&& next / 16 == (code / 16 + 1) % 8
            &&& below % 16 == (code % 16 + 3) % 8
            &&& below / 16 == (code / 16 + 5) % 8
            &&& first % 16 == seed % 7
            &&& first / 16 == seed % 5
        }),
{
    let x = row * 3 + b + seed % 7;
    let y = row * 5 + b + seed % 5;
    two_halves(x % 8, y % 8);
    two_halves((x + 1) % 8, (y + 1) % 8);
    two_halves((x + 3) % 8, (y + 5) % 8);
    two_halves((seed % 7) as int, (seed % 5) as int);
    around_eight(x, 1);
    around_eight(y, 1);
    around_eight(x, 3);
    around_eight(y, 5);
    assert((row + 1) * 3 + b + seed % 7 == x + 3);
    assert((row + 1) * 5 + b + seed % 5 == y + 5);
    assert(row * 3 + (b + 1) + seed % 7 == x + 1);
    assert(row * 5 + (b + 1) + seed % 5 == y + 1);
    vstd::arithmetic::div_mod::lemma_small_mod((seed % 7) as nat, 8);
    vstd::arithmetic::div_mod::lemma_small_mod((seed % 5) as nat, 8);
}

proof fn two_halves(lo: int, hi: int)
    requires
        0 <= lo < 8,
        0 <= hi < 8,
    ensures
        (lo + 16 * hi) % 16 == lo,
        (lo + 16 * hi) / 16 == hi,
        0 <= lo + 16 * hi < 128,
{
}

proof fn around_eight(x: int, by: int)
    ensures
        (x + by) % 8 == (x % 8 + by) % 8,
{
    vstd::arithmetic::div_mod::lemma_add_mod_noop(x, by, 8);
    vstd::arithmetic::div_mod::lemma_add_mod_noop(x % 8, by, 8);
}

/// The unit scale stands for one, and a norm of ones for nothing but itself.
pub proof fn the_unit_scale_is_one()
    ensures
        crate::nvfp4::e4m3_units(SCALE_ONE as int) == 512,
        !crate::nvfp4::e4m3_negative(SCALE_ONE as int),
{
    vstd::arithmetic::power2::lemma2_to64();
    assert(8 * vstd::arithmetic::power2::pow2(6) == 512);
    assert((SCALE_ONE as int / 8) % 16 == 7 && SCALE_ONE as int % 8 == 0);
}

impl Nvfp4Weight {
    /// Shape alone.
    pub open spec fn is_bare(self, m: u64, k: u64) -> bool {
        self.m == m && self.k == k && self.codes@.len() == 0 && self.scales@.len() == 0
    }

    /// The synthetic content of this shape: a fixed pattern of codes under
    /// unit scales; nothing where the shape holds nothing.
    pub open spec fn is_synthetic(self, m: u64, k: u64, seed: u64) -> bool {
        if m == 0 || k == 0 {
            self.is_bare(0, 0)
        } else {
            &&& self.m == m
            &&& self.k == k
            &&& self.codes@.len() == m * (k / 2)
            &&& forall|i: int|
                0 <= i < self.codes@.len() ==> #[trigger] self.codes@[i] == synthetic_code(
                    i / (k as int / 2),
                    i % (k as int / 2),
                    seed,
                )
            &&& self.scales@.len() == m * (k / 16)
            &&& forall|i: int|
                0 <= i < self.scales@.len() ==> #[trigger] self.scales@[i] == SCALE_ONE
        }
    }

    /// An unused weight.
    pub fn empty() -> (weight: Nvfp4Weight)
        ensures
            weight.is_bare(0, 0),
    {
        Nvfp4Weight { codes: Vec::new(), scales: Vec::new(), m: 0, k: 0 }
    }

    /// A weight whose content is elsewhere.
    pub fn geometry_only(m: u64, k: u64) -> (weight: Nvfp4Weight)
        ensures
            weight.is_bare(m, k),
            weight.m == m,
            weight.k == k,
            weight.codes@.len() == 0,
            weight.scales@.len() == 0,
    {
        Nvfp4Weight { codes: Vec::new(), scales: Vec::new(), m, k }
    }

    /// A synthetic weight.
    pub fn synthetic(m: u64, k: u64, seed: u64) -> (weight: Nvfp4Weight)
        requires
            holdable(m as int, k as int),
        ensures
            weight.is_synthetic(m, k, seed),
    {
        if m == 0 || k == 0 {
            return Nvfp4Weight::empty();
        }
        let row: u64 = k / 2;
        proof {
            product_shrinks(m as int, row as int, k as int);
            product_shrinks(m as int, (k / 16) as int, k as int);
        }
        let size: u64 = m * row;
        let scale_size: u64 = m * (k / 16);
        let mut codes: Vec<u8> = Vec::new();
        let mut i: u64 = 0;
        while i < size
            invariant
                row == k / 2,
                size == m * row,
                size > 0 ==> row > 0,
                i <= size <= u64::MAX / 8,
                size <= usize::MAX,
                codes@.len() == i,
                forall|j: int|
                    0 <= j < i ==> #[trigger] codes@[j] == synthetic_code(
                        j / (k as int / 2),
                        j % (k as int / 2),
                        seed,
                    ),
            decreases size - i,
        {
            proof {
                if row == 0 {
                    assert(m * row == 0) by (nonlinear_arith)
                        requires
                            row == 0,
                    ;
                }
            }
            let mi: u64 = i / row;
            let b: u64 = i % row;
            proof {
                vstd::arithmetic::div_mod::lemma_div_is_ordered_by_denominator(
                    i as int,
                    1,
                    row as int,
                );
                vstd::arithmetic::div_mod::lemma_mod_decreases(i as nat, row as nat);
                assert(mi <= i && b <= i);
            }
            let lo: u64 = (mi * 3 + b + seed % 7) % 8;
            let hi: u64 = (mi * 5 + b + seed % 5) % 8;
            codes.push((lo + 16 * hi) as u8);
            i = i + 1;
        }
        let mut scales: Vec<u8> = Vec::new();
        let mut j: u64 = 0;
        while j < scale_size
            invariant
                j <= scale_size,
                scale_size <= usize::MAX,
                scales@.len() == j,
                forall|n: int| 0 <= n < j ==> #[trigger] scales@[n] == SCALE_ONE,
            decreases scale_size - j,
        {
            scales.push(SCALE_ONE);
            j = j + 1;
        }
        Nvfp4Weight { codes, scales, m, k }
    }
}

proof fn product_shrinks(m: int, part: int, k: int)
    requires
        0 <= m,
        0 <= part <= k,
    ensures
        0 <= m * part <= m * k,
        part == 0 ==> m * part == 0,
{
    assert(0 <= m * part <= m * k) by (nonlinear_arith)
        requires
            0 <= m,
            0 <= part <= k,
    ;
}

/// The weight of the logits GEMM.
#[derive(Debug)]
pub enum HeadWeight {
    Nvfp4(Nvfp4Weight),
    /// Dequantized, `[m][k]` bf16 patterns.
    DequantBf16 { data: Vec<u16>, m: u64, k: u64 },
}

impl HeadWeight {
    /// The output rows and the input width.
    pub open spec fn shape(self) -> (u64, u64) {
        match self {
            HeadWeight::Nvfp4(w) => (w.m, w.k),
            HeadWeight::DequantBf16 { m, k, .. } => (m, k),
        }
    }

    pub fn dims(&self) -> (dims: (u64, u64))
        ensures
            dims == self.shape(),
            self matches HeadWeight::Nvfp4(w) ==> dims == (w.m, w.k),
            self matches HeadWeight::DequantBf16 { m, k, .. } ==> dims == (*m, *k),
    {
        match self {
            HeadWeight::Nvfp4(w) => (w.m, w.k),
            HeadWeight::DequantBf16 { m, k, .. } => (*m, *k),
        }
    }

    /// The NVFP4 weight, where it is one.
    pub fn as_nvfp4(&self) -> (weight: Option<&Nvfp4Weight>)
        ensures
            match weight {
                Some(w) => *self == HeadWeight::Nvfp4(*w),
                None => !(self matches HeadWeight::Nvfp4(_)),
            },
    {
        match self {
            HeadWeight::Nvfp4(w) => Some(w),
            HeadWeight::DequantBf16 { .. } => None,
        }
    }
}

/// A bf16 weight, `[m][k]` patterns.
#[derive(Debug)]
pub struct Bf16Weight {
    pub data: Vec<u16>,
    pub m: u64,
    pub k: u64,
}

/// The pattern of `v / 8 - 1`, for `v` under sixteen.
pub open spec fn eighth_bits(v: int) -> int {
    if v < 8 {
        BF16_SIGN + ratio_bits(8 - v, 8)
    } else {
        ratio_bits(v - 8, 8)
    }
}

/// The sixteen values are the eighths from minus one on: those below zero are
/// those above it under a sign.
pub proof fn eighths_mirror_about_zero(j: int)
    requires
        0 < j < 8,
    ensures
        eighth_bits(8) == 0,
        eighth_bits(8 + j) == ratio_bits(j, 8),
        eighth_bits(8 - j) == BF16_SIGN + eighth_bits(8 + j),
        eighth_bits(0) == BF16_SIGN + ratio_bits(8, 8),
{
}

/// The values of a synthetic weight go on from column to column by three and
/// from row to row by seven, around sixteen, from where the seed puts the first.
pub proof fn synthetic_eighths_go_around(row: u64, col: u64, seed: u64)
    requires
        row < u64::MAX,
        col < u64::MAX,
    ensures
        synthetic_eighth(0, 0, seed) == seed % 16,
        synthetic_eighth(row, (col + 1) as u64, seed) == (synthetic_eighth(row, col, seed) + 3)
            % 16,
        synthetic_eighth((row + 1) as u64, col, seed) == (synthetic_eighth(row, col, seed) + 7)
            % 16,
        synthetic_eighth(row, col, seed) < 16,
{
    eighth_is_a_sum(row, col, seed);
    eighth_is_a_sum(row, (col + 1) as u64, seed);
    eighth_is_a_sum((row + 1) as u64, col, seed);
    eighth_is_a_sum(0, 0, seed);
    let x = row * 7 + col * 3 + seed;
    assert((row + 1) * 7 + col * 3 + seed == x + 7);
    assert(row * 7 + (col + 1) * 3 + seed == x + 3);
    around_sixteen(x, 3);
    around_sixteen(x, 7);
}

proof fn around_sixteen(x: int, by: int)
    ensures
        (x + by) % 16 == (x % 16 + by) % 16,
{
    vstd::arithmetic::div_mod::lemma_add_mod_noop(x, by, 16);
    vstd::arithmetic::div_mod::lemma_add_mod_noop(x % 16, by, 16);
}

proof fn wrapped_around_sixteen(x: int)
    requires
        0 <= x,
    ensures
        (x % 0x1_0000_0000_0000_0000) % 16 == x % 16,
{
    vstd::arithmetic::div_mod::lemma_mod_mod(x, 16, 0x1000_0000_0000_0000);
}

proof fn eighth_is_a_sum(row: u64, col: u64, seed: u64)
    ensures
        synthetic_eighth(row, col, seed) == (row * 7 + col * 3 + seed) % 16,
{
    let (p, q) = (row * 7, col * 3);
    let a = row.wrapping_mul(7) as int;
    let b = col.wrapping_mul(3) as int;
    wrapped_around_sixteen(p);
    wrapped_around_sixteen(q);
    wrapped_around_sixteen(a + b);
    let c = row.wrapping_mul(7).wrapping_add(col.wrapping_mul(3)) as int;
    wrapped_around_sixteen(c + seed);
    assert(a == p % 0x1_0000_0000_0000_0000);
    assert(b == q % 0x1_0000_0000_0000_0000);
    assert(c == (a + b) % 0x1_0000_0000_0000_0000);
    vstd::arithmetic::div_mod::lemma_add_mod_noop(a, b, 16);
    vstd::arithmetic::div_mod::lemma_add_mod_noop(p, q, 16);
    vstd::arithmetic::div_mod::lemma_add_mod_noop(c, seed as int, 16);
    vstd::arithmetic::div_mod::lemma_add_mod_noop(p + q, seed as int, 16);
}

/// Which of the sixteen values stands at a column of a row of a synthetic
/// weight.
pub open spec fn synthetic_eighth(row: u64, col: u64, seed: u64) -> u64 {
    row.wrapping_mul(7).wrapping_add(col.wrapping_mul(3)).wrapping_add(seed) % 16
}

impl Bf16Weight {
    /// Shape alone.
    pub open spec fn is_bare(self, m: u64, k: u64) -> bool {
        self.m == m && self.k == k && self.data@.len() == 0
    }

    /// The synthetic content of this shape: multiples of an eighth in
    /// `[-1, 1)`; nothing where the shape holds nothing.
    pub open spec fn is_synthetic(self, m: u64, k: u64, seed: u64) -> bool {
        if m == 0 || k == 0 {
            self.is_bare(0, 0)
        } else {
            &&& self.m == m
            &&& self.k == k
            &&& self.data@.len() == m * k
            &&& forall|i: int|
                0 <= i < self.data@.len() ==> #[trigger] self.data@[i] == eighth_bits(
                    synthetic_eighth((i / k as int) as u64, (i % k as int) as u64, seed) as int,
                )
        }
    }

    /// An unused weight.
    pub fn empty() -> (weight: Bf16Weight)
        ensures
            weight.is_bare(0, 0),
    {
        Bf16Weight { data: Vec::new(), m: 0, k: 0 }
    }

    /// A weight whose content is elsewhere.
    pub fn geometry_only(m: u64, k: u64) -> (weight: Bf16Weight)
        ensures
            weight.is_bare(m, k),
            weight.m == m,
            weight.k == k,
            weight.data@.len() == 0,
    {
        Bf16Weight { data: Vec::new(), m, k }
    }

    /// A synthetic weight.
    pub fn bf16_weight(m: u64, k: u64, seed: u64) -> (weight: Bf16Weight)
        requires
            holdable(m as int, k as int),
        ensures
            weight.is_synthetic(m, k, seed),
    {
        if m == 0 || k == 0 {
            return Bf16Weight::empty();
        }
        let size: u64 = m * k;
        let mut data: Vec<u16> = Vec::new();
        let mut i: u64 = 0;
        while i < size
            invariant
                k > 0,
                i <= size,
                size <= usize::MAX,
                data@.len() == i,
                forall|j: int|
                    0 <= j < i ==> #[trigger] data@[j] == eighth_bits(
                        synthetic_eighth((j / k as int) as u64, (j % k as int) as u64, seed) as int,
                    ),
            decreases size - i,
        {
            let r: u64 = i / k;
            let c: u64 = i % k;
            let v: u64 = r.wrapping_mul(7).wrapping_add(c.wrapping_mul(3)).wrapping_add(seed) % 16;
            data.push(eighth(v));
            i = i + 1;
        }
        Bf16Weight { data, m, k }
    }
}

/// The pattern of `v / 8 - 1`.
fn eighth(v: u64) -> (bits: u16)
    requires
        v < 16,
    ensures
        bits == eighth_bits(v as int),
{
    if v < 8 {
        let magnitude: u16 = bf16_ratio(8 - v, 8);
        proof {
            crate::bf16::small_ratio((8 - v) as int, 8);
        }
        BF16_SIGN + magnitude
    } else {
        bf16_ratio(v - 8, 8)
    }
}

/// A device-resident NVFP4 plane: the addresses of its codes and its scales.
#[derive(Debug, Clone, Copy, PartialEq, Eq, Structural)]
pub struct Nvfp4DevicePlane {
    pub codes: u64,
    pub scales: u64,
    pub m: u64,
    pub k: u64,
}

/// The device-resident planes of a layer. A slot without one is served from
/// host weights.
#[derive(Debug, Clone, Copy, PartialEq, Eq, Structural)]
pub struct LayerDeviceSlots {
    /// The fused query, key, gate and value projection.
    pub qkv: Option<Nvfp4DevicePlane>,
    pub attn_out: Option<Nvfp4DevicePlane>,
    pub gdn_in: Option<Nvfp4DevicePlane>,
    pub gdn_out: Option<Nvfp4DevicePlane>,
    /// The fused gate and up projection.
    pub mlp_gate_up: Option<Nvfp4DevicePlane>,
    pub mlp_down: Option<Nvfp4DevicePlane>,
}

impl LayerDeviceSlots {
    pub open spec fn none() -> LayerDeviceSlots {
        LayerDeviceSlots {
            qkv: None,
            attn_out: None,
            gdn_in: None,
            gdn_out: None,
            mlp_gate_up: None,
            mlp_down: None,
        }
    }
}

impl Default for LayerDeviceSlots {
    fn default() -> (slots: LayerDeviceSlots)
        ensures
            slots == LayerDeviceSlots::none(),
    {
        LayerDeviceSlots {
            qkv: None,
            attn_out: None,
            gdn_in: None,
            gdn_out: None,
            mlp_gate_up: None,
            mlp_down: None,
        }
    }
}

/// A decoder layer's weights.
#[derive(Debug)]
pub struct LayerWeights {
    pub kind: LayerKind,
    /// Query, key, value and output of a GQA layer; the input projection of a
    /// GDN layer, with the rest unused.
    pub projection: [Nvfp4Weight; 4],
    /// The readout of a GDN layer's state.
    pub gdn_output: Nvfp4Weight,
    pub ffn_gate: Nvfp4Weight,
    pub ffn_up: Nvfp4Weight,
    pub ffn_down: Nvfp4Weight,
    /// bf16 patterns, as wide as the residual stream.
    pub norm_in: Vec<u16>,
    pub norm_post: Vec<u16>,
    /// Four taps of the causal conv, tap-major.
    pub gdn_conv: Bf16Weight,
    /// The alpha and beta projection.
    pub gdn_ab: Bf16Weight,
    /// Query and key norms of a GQA layer; empty norms without parameters.
    pub qk_norm: [Vec<u16>; 2],
    /// Unquantized projections, where the layer has them; empty otherwise.
    pub qkv_bf16: Bf16Weight,
    pub attn_out_bf16: Bf16Weight,
    pub gdn_out_bf16: Bf16Weight,
    pub dev: LayerDeviceSlots,
    /// The layer's place among the GDN layers; 0 for a GQA layer.
    pub gdn_index: usize,
}

/// A model's weights.
#[derive(Debug)]
pub struct Weights {
    /// `[vocab][hidden]` bf16 patterns.
    pub embedding: Vec<u16>,
    pub per_layer: Vec<LayerWeights>,
    pub final_norm: Vec<u16>,
    pub lm_head: HeadWeight,
}

/// A decoder layer's shapes, output rows by input width.
#[derive(Debug, PartialEq, Eq)]
pub struct LayerGeometry {
    pub kind: LayerKind,
    pub projection: [(u64, u64); 4],
    pub gdn_output: (u64, u64),
    pub ffn_gate: (u64, u64),
    pub ffn_up: (u64, u64),
    pub ffn_down: (u64, u64),
    pub norm_in: u64,
    pub norm_post: u64,
    pub gdn_conv: (u64, u64),
    pub gdn_ab: (u64, u64),
    pub qk_norm: u64,
    pub gdn_conv_channels: u64,
    pub gdn_in_proj: (u64, u64),
}

/// The shapes a topology demands of a model's weights.
#[derive(Debug, PartialEq, Eq)]
pub struct WeightsGeometry {
    pub embedding: (u64, u64),
    pub per_layer: Vec<LayerGeometry>,
    pub final_norm: u64,
    pub lm_head: (u64, u64),
}

/// A dequantized embedding table and head, with their shapes.
#[derive(Debug)]
pub struct W8Endpoints {
    pub embedding: Vec<u16>,
    pub embedding_shape: (u64, u64),
    pub lm_head: Vec<u16>,
    pub lm_head_shape: (u64, u64),
}

/// A shape, or none at all where it would hold nothing.
pub open spec fn shape_if(wanted: bool, m: int, k: int) -> (u64, u64) {
    if wanted {
        (m as u64, k as u64)
    } else {
        (0, 0)
    }
}

impl LayerGeometry {
    /// The shapes of a layer of this kind.
    pub open spec fn follows(self, config: ModelConfig, kind: LayerKind) -> bool {
        let hidden = config.hidden as int;
        let gqa = kind == LayerKind::Gqa;
        &&& self.kind == kind
        &&& self.projection@[0] == (if gqa {
            shape_if(true, config.q_width(), hidden)
        } else {
            shape_if(true, config.in_width(), hidden)
        })
        &&& self.projection@[1] == shape_if(gqa, config.kv_width(), hidden)
        &&& self.projection@[2] == shape_if(gqa, config.kv_width(), hidden)
        &&& self.projection@[3] == shape_if(gqa, hidden, config.q_width())
        &&& self.gdn_output == shape_if(!gqa, hidden, config.gdn_state_rows as int)
        &&& self.ffn_gate == (config.ffn_intermediate, config.hidden)
        &&& self.ffn_up == (config.ffn_intermediate, config.hidden)
        &&& self.ffn_down == (config.hidden, config.ffn_intermediate)
        &&& self.norm_in == config.hidden
        &&& self.norm_post == config.hidden
        &&& self.gdn_conv == shape_if(!gqa && config.conv_width() > 0, 4, config.conv_width())
        &&& self.gdn_ab == shape_if(
            !gqa && config.gdn_ab_width > 0,
            config.gdn_ab_width as int,
            hidden,
        )
        &&& self.qk_norm == (if gqa { config.head_dim as int } else { 0 })
        &&& self.gdn_conv_channels == (if gqa { 0 } else { config.conv_width() })
        &&& self.gdn_in_proj == shape_if(!gqa, config.in_width(), hidden)
    }

    /// The shapes of a layer of this kind.
    fn of(config: &ModelConfig, kind: LayerKind) -> (geometry: LayerGeometry)
        requires
            config.countable(),
        ensures
            geometry.follows(*config, kind),
    {
        let hidden: u64 = config.hidden;
        let ffn: u64 = config.ffn_intermediate;
        match kind {
            LayerKind::Gqa => {
                let q: u64 = config.gqa_width();
                let kv: u64 = config.gqa_kv_width();
                LayerGeometry {
                    kind: LayerKind::Gqa,
                    projection: [(q, hidden), (kv, hidden), (kv, hidden), (hidden, q)],
                    gdn_output: (0, 0),
                    ffn_gate: (ffn, hidden),
                    ffn_up: (ffn, hidden),
                    ffn_down: (hidden, ffn),
                    norm_in: hidden,
                    norm_post: hidden,
                    gdn_conv: (0, 0),
                    gdn_ab: (0, 0),
                    qk_norm: config.head_dim,
                    gdn_conv_channels: 0,
                    gdn_in_proj: (0, 0),
                }
            },
            LayerKind::Gdn => {
                let channels: u64 = config.gdn_conv_channels();
                let rows: u64 = config.gdn_in_proj_m();
                LayerGeometry {
                    kind: LayerKind::Gdn,
                    projection: [(rows, hidden), (0, 0), (0, 0), (0, 0)],
                    gdn_output: (hidden, config.gdn_readout_k()),
                    ffn_gate: (ffn, hidden),
                    ffn_up: (ffn, hidden),
                    ffn_down: (hidden, ffn),
                    norm_in: hidden,
                    norm_post: hidden,
                    gdn_conv: if channels > 0 {
                        (4, channels)
                    } else {
                        (0, 0)
                    },
                    gdn_ab: if config.gdn_ab_width > 0 {
                        (config.gdn_ab_width, hidden)
                    } else {
                        (0, 0)
                    },
                    qk_norm: 0,
                    gdn_conv_channels: channels,
                    gdn_in_proj: (rows, hidden),
                }
            },
        }
    }
}

impl WeightsGeometry {
    /// The shapes this topology demands.
    pub open spec fn follows(self, config: ModelConfig) -> bool {
        &&& self.embedding == (config.vocab, config.hidden)
        &&& self.final_norm == config.hidden
        &&& self.lm_head == (config.vocab, config.hidden)
        &&& self.per_layer@.len() == config.layer_kinds@.len()
        &&& forall|i: int|
            0 <= i < config.layer_kinds@.len() ==> (#[trigger] self.per_layer@[i]).follows(
                config,
                config.layer_kinds@[i],
            )
    }

    /// The shapes a topology demands of a model's weights.
    pub fn from_config(config: &ModelConfig) -> (geometry: WeightsGeometry)
        requires
            config.countable(),
        ensures
            geometry.follows(*config),
            geometry.embedding == (config.vocab, config.hidden),
            geometry.lm_head == (config.vocab, config.hidden),
            geometry.final_norm == config.hidden,
            geometry.per_layer@.len() == config.layer_kinds@.len(),
            forall|i: int|
                0 <= i < geometry.per_layer@.len() ==> (#[trigger] geometry.per_layer@[i]).kind
                    == config.layer_kinds@[i],
    {
        let mut per_layer: Vec<LayerGeometry> = Vec::new();
        while per_layer.len() < config.layer_kinds.len()
            invariant
                config.countable(),
                per_layer@.len() <= config.layer_kinds@.len(),
                forall|i: int|
                    0 <= i < per_layer@.len() ==> (#[trigger] per_layer@[i]).follows(
                        *config,
                        config.layer_kinds@[i],
                    ),
            decreases config.layer_kinds@.len() - per_layer@.len(),
        {
            let kind = config.layer_kinds[per_layer.len()];
            per_layer.push(LayerGeometry::of(config, kind));
        }
        WeightsGeometry {
            embedding: (config.vocab, config.hidden),
            per_layer,
            final_norm: config.hidden,
            lm_head: (config.vocab, config.hidden),
        }
    }
}

/// `n` ones.
pub open spec fn ones(n: int) -> Seq<u16> {
    Seq::new(n as nat, |i: int| BF16_ONE)
}

/// `n` ones.
fn identity_norm(n: u64) -> (norm: Vec<u16>)
    requires
        n <= usize::MAX,
    ensures
        norm@ == ones(n as int),
        norm@.len() == n,
        forall|i: int| 0 <= i < n ==> #[trigger] norm@[i] == 0x3F80,
{
    let mut norm: Vec<u16> = Vec::new();
    let mut i: u64 = 0;
    while i < n
        invariant
            i <= n <= usize::MAX,
            norm@ == ones(i as int),
        decreases n - i,
    {
        norm.push(BF16_ONE);
        assert(norm@ =~= ones(i + 1));
        i = i + 1;
    }
    norm
}

/// The GDN layers' own place, 0 for the others.
pub open spec fn place_among_gdn(kinds: Seq<LayerKind>, i: int) -> int {
    if kinds[i] == LayerKind::Gdn {
        gdn_layers(kinds, i)
    } else {
        0
    }
}

/// No two GDN layers have one place, and a later one has a later place.
pub proof fn gdn_layers_have_places_of_their_own(kinds: Seq<LayerKind>, i: int, j: int)
    requires
        0 <= i < j < kinds.len(),
        kinds[i] == LayerKind::Gdn,
        kinds[j] == LayerKind::Gdn,
    ensures
        place_among_gdn(kinds, i) < place_among_gdn(kinds, j),
        (forall|k: int| 0 <= k < i ==> #[trigger] kinds[k] != LayerKind::Gdn) ==> place_among_gdn(
            kinds,
            i,
        ) == 0,
        (forall|k: int| i < k < j ==> #[trigger] kinds[k] != LayerKind::Gdn) ==> place_among_gdn(
            kinds,
            j,
        ) == place_among_gdn(kinds, i) + 1,
{
    crate::model::gdn_layers_grow(kinds, i + 1, j);
    if forall|k: int| 0 <= k < i ==> #[trigger] kinds[k] != LayerKind::Gdn {
        no_gdn_between(kinds, 0, i);
    }
    if forall|k: int| i < k < j ==> #[trigger] kinds[k] != LayerKind::Gdn {
        no_gdn_between(kinds, i + 1, j);
    }
}

proof fn no_gdn_between(kinds: Seq<LayerKind>, from: int, to: int)
    requires
        0 <= from <= to <= kinds.len(),
        forall|k: int| from <= k < to ==> #[trigger] kinds[k] != LayerKind::Gdn,
    ensures
        gdn_layers(kinds, to) == gdn_layers(kinds, from),
    decreases to - from,
{
    if from < to {
        no_gdn_between(kinds, from, to - 1);
        assert(kinds[to - 1] != LayerKind::Gdn);
    }
}

/// The synthetic model of this topology can be held.
pub open spec fn buildable(config: ModelConfig) -> bool {
    let hidden = config.hidden as int;
    &&& config.countable()
    &&& hidden <= usize::MAX
    &&& config.head_dim <= usize::MAX
    &&& holdable(config.q_width(), hidden)
    &&& holdable(config.kv_width(), hidden)
    &&& holdable(hidden, config.q_width())
    &&& holdable(config.ffn_intermediate as int, hidden)
    &&& holdable(hidden, config.ffn_intermediate as int)
    &&& holdable(config.in_width(), hidden)
    &&& holdable(hidden, config.gdn_state_rows as int)
    &&& holdable(4, config.conv_width())
    &&& holdable(config.gdn_ab_width as int, hidden)
    &&& holdable(config.vocab as int, hidden)
}

/// The value at `i` of a synthetic embedding, in thirty-firsts.
pub open spec fn synthetic_embedding(i: u64, seed: u64) -> u64 {
    i.wrapping_mul(seed).wrapping_add(1) % 31
}

impl LayerWeights {
    /// Nothing is held on the device or unquantized.
    pub open spec fn is_plain(self, kind: LayerKind, gdn_index: int) -> bool {
        &&& self.kind == kind
        &&& self.gdn_index == gdn_index
        &&& self.dev == LayerDeviceSlots::none()
        &&& self.qkv_bf16.is_bare(0, 0)
        &&& self.attn_out_bf16.is_bare(0, 0)
        &&& self.gdn_out_bf16.is_bare(0, 0)
    }

    /// The synthetic layer of this kind.
    pub open spec fn is_synthetic(
        self,
        config: ModelConfig,
        kind: LayerKind,
        gdn_index: int,
        seed: u64,
    ) -> bool {
        let hidden = config.hidden;
        let ffn = config.ffn_intermediate;
        &&& self.is_plain(kind, gdn_index)
        &&& self.norm_in@ == ones(hidden as int)
        &&& self.norm_post@ == ones(hidden as int)
        &&& match kind {
            LayerKind::Gqa => {
                let q = config.q_width() as u64;
                let kv = config.kv_width() as u64;
                &&& self.projection@[0].is_synthetic(q, hidden, seed)
                &&& self.projection@[1].is_synthetic(kv, hidden, seed.wrapping_add(1))
                &&& self.projection@[2].is_synthetic(kv, hidden, seed.wrapping_add(2))
                &&& self.projection@[3].is_synthetic(hidden, q, seed.wrapping_add(3))
                &&& self.gdn_output.is_bare(0, 0)
                &&& self.ffn_gate.is_synthetic(ffn, hidden, seed.wrapping_add(4))
                &&& self.ffn_up.is_synthetic(ffn, hidden, seed.wrapping_add(5))
                &&& self.ffn_down.is_synthetic(hidden, ffn, seed.wrapping_add(6))
                &&& self.gdn_conv.is_bare(0, 0)
                &&& self.gdn_ab.is_bare(0, 0)
                &&& self.qk_norm@[0]@ == ones(config.head_dim as int)
                &&& self.qk_norm@[1]@ == ones(config.head_dim as int)
            },
            LayerKind::Gdn => {
                &&& self.projection@[0].is_synthetic(config.in_width() as u64, hidden, seed)
                &&& self.projection@[1].is_bare(0, 0)
                &&& self.projection@[2].is_bare(0, 0)
                &&& self.projection@[3].is_bare(0, 0)
                &&& self.gdn_output.is_synthetic(
                    hidden,
                    config.gdn_state_rows,
                    seed.wrapping_add(1),
                )
                &&& self.ffn_gate.is_synthetic(ffn, hidden, seed.wrapping_add(2))
                &&& self.ffn_up.is_synthetic(ffn, hidden, seed.wrapping_add(3))
                &&& self.ffn_down.is_synthetic(hidden, ffn, seed.wrapping_add(4))
                &&& self.gdn_conv.is_synthetic(
                    4,
                    config.conv_width() as u64,
                    seed.wrapping_add(8),
                )
                &&& self.gdn_ab.is_synthetic(config.gdn_ab_width, hidden, seed.wrapping_add(9))
                &&& self.qk_norm@[0]@.len() == 0
                &&& self.qk_norm@[1]@.len() == 0
            },
        }
    }

    fn synthetic_gqa(config: &ModelConfig, seed: u64) -> (layer: LayerWeights)
        requires
            buildable(*config),
        ensures
            layer.is_synthetic(*config, LayerKind::Gqa, 0, seed),
    {
        let hidden: u64 = config.hidden;
        let ffn: u64 = config.ffn_intermediate;
        let q: u64 = config.gqa_width();
        let kv: u64 = config.gqa_kv_width();
        LayerWeights {
            kind: LayerKind::Gqa,
            projection: [
                Nvfp4Weight::synthetic(q, hidden, seed),
                Nvfp4Weight::synthetic(kv, hidden, seed.wrapping_add(1)),
                Nvfp4Weight::synthetic(kv, hidden, seed.wrapping_add(2)),
                Nvfp4Weight::synthetic(hidden, q, seed.wrapping_add(3)),
            ],
            gdn_output: Nvfp4Weight::empty(),
            ffn_gate: Nvfp4Weight::synthetic(ffn, hidden, seed.wrapping_add(4)),
            ffn_up: Nvfp4Weight::synthetic(ffn, hidden, seed.wrapping_add(5)),
            ffn_down: Nvfp4Weight::synthetic(hidden, ffn, seed.wrapping_add(6)),
            norm_in: identity_norm(hidden),
            norm_post: identity_norm(hidden),
            gdn_conv: Bf16Weight::empty(),
            gdn_ab: Bf16Weight::empty(),
            qk_norm: [identity_norm(config.head_dim), identity_norm(config.head_dim)],
            qkv_bf16: Bf16Weight::empty(),
            attn_out_bf16: Bf16Weight::empty(),
            gdn_out_bf16: Bf16Weight::empty(),
            dev: LayerDeviceSlots::default(),
            gdn_index: 0,
        }
    }

    fn synthetic_gdn(config: &ModelConfig, gdn_index: usize, seed: u64) -> (layer: LayerWeights)
        requires
            buildable(*config),
        ensures
            layer.is_synthetic(*config, LayerKind::Gdn, gdn_index as int, seed),
    {
        let hidden: u64 = config.hidden;
        let ffn: u64 = config.ffn_intermediate;
        LayerWeights {
            kind: LayerKind::Gdn,
            projection: [
                Nvfp4Weight::synthetic(config.gdn_in_proj_m(), hidden, seed),
                Nvfp4Weight::empty(),
                Nvfp4Weight::empty(),
                Nvfp4Weight::empty(),
            ],
            gdn_output: Nvfp4Weight::synthetic(
                hidden,
                config.gdn_readout_k(),
                seed.wrapping_add(1),
            ),
            ffn_gate: Nvfp4Weight::synthetic(ffn, hidden, seed.wrapping_add(2)),
            ffn_up: Nvfp4Weight::synthetic(ffn, hidden, seed.wrapping_add(3)),
            ffn_down: Nvfp4Weight::synthetic(hidden, ffn, seed.wrapping_add(4)),
            norm_in: identity_norm(hidden),
            norm_post: identity_norm(hidden),
            gdn_conv: Bf16Weight::bf16_weight(4, config.gdn_conv_channels(), seed.wrapping_add(8)),
            gdn_ab: Bf16Weight::bf16_weight(config.gdn_ab_width, hidden, seed.wrapping_add(9)),
            qk_norm: [Vec::new(), Vec::new()],
            qkv_bf16: Bf16Weight::empty(),
            attn_out_bf16: Bf16Weight::empty(),
            gdn_out_bf16: Bf16Weight::empty(),
            dev: LayerDeviceSlots::default(),
            gdn_index,
        }
    }

    /// A layer that holds nothing.
    pub open spec fn is_placeholder(self, kind: LayerKind, gdn_index: int) -> bool {
        &&& self.is_plain(kind, gdn_index)
        &&& forall|j: int| 0 <= j < 4 ==> (#[trigger] self.projection@[j]).is_bare(0, 0)
        &&& self.gdn_output.is_bare(0, 0)
        &&& self.ffn_gate.is_bare(0, 0)
        &&& self.ffn_up.is_bare(0, 0)
        &&& self.ffn_down.is_bare(0, 0)
        &&& self.norm_in@.len() == 0
        &&& self.norm_post@.len() == 0
        &&& self.gdn_conv.is_bare(0, 0)
        &&& self.gdn_ab.is_bare(0, 0)
        &&& self.qk_norm@[0]@.len() == 0
        &&& self.qk_norm@[1]@.len() == 0
    }

    fn placeholder(kind: LayerKind, gdn_index: usize) -> (layer: LayerWeights)
        ensures
            layer.is_placeholder(kind, gdn_index as int),
    {
        LayerWeights {
            kind,
            projection: [
                Nvfp4Weight::empty(),
                Nvfp4Weight::empty(),
                Nvfp4Weight::empty(),
                Nvfp4Weight::empty(),
            ],
            gdn_output: Nvfp4Weight::empty(),
            ffn_gate: Nvfp4Weight::empty(),
            ffn_up: Nvfp4Weight::empty(),
            ffn_down: Nvfp4Weight::empty(),
            norm_in: Vec::new(),
            norm_post: Vec::new(),
            gdn_conv: Bf16Weight::empty(),
            gdn_ab: Bf16Weight::empty(),
            qk_norm: [Vec::new(), Vec::new()],
            qkv_bf16: Bf16Weight::empty(),
            attn_out_bf16: Bf16Weight::empty(),
            gdn_out_bf16: Bf16Weight::empty(),
            dev: LayerDeviceSlots::default(),
            gdn_index,
        }
    }

    /// A layer of these shapes whose content is elsewhere, under identity
    /// norms.
    pub open spec fn has_shapes(self, lg: LayerGeometry, head_dim: u64, gdn_index: int) -> bool {
        &&& self.is_plain(lg.kind, gdn_index)
        &&& forall|j: int|
            0 <= j < 4 ==> (#[trigger] self.projection@[j]).is_bare(
                lg.projection@[j].0,
                lg.projection@[j].1,
            )
        &&& self.gdn_output.is_bare(lg.gdn_output.0, lg.gdn_output.1)
        &&& self.ffn_gate.is_bare(lg.ffn_gate.0, lg.ffn_gate.1)
        &&& self.ffn_up.is_bare(lg.ffn_up.0, lg.ffn_up.1)
        &&& self.ffn_down.is_bare(lg.ffn_down.0, lg.ffn_down.1)
        &&& self.norm_in@ == ones(lg.norm_in as int)
        &&& self.norm_post@ == ones(lg.norm_post as int)
        &&& self.gdn_conv.is_bare(lg.gdn_conv.0, lg.gdn_conv.1)
        &&& self.gdn_ab.is_bare(lg.gdn_ab.0, lg.gdn_ab.1)
        &&& self.qk_norm@[0]@ == ones(if lg.qk_norm > 0 { head_dim as int } else { 0 })
        &&& self.qk_norm@[1]@ == ones(if lg.qk_norm > 0 { head_dim as int } else { 0 })
    }

    fn of_geometry(lg: &LayerGeometry, head_dim: u64, gdn_index: usize) -> (layer: LayerWeights)
        requires
            lg.norm_in <= usize::MAX,
            lg.norm_post <= usize::MAX,
            head_dim <= usize::MAX,
        ensures
            layer.has_shapes(*lg, head_dim, gdn_index as int),
    {
        let head: u64 = if lg.qk_norm > 0 {
            head_dim
        } else {
            0
        };
        LayerWeights {
            kind: lg.kind,
            projection: [
                Nvfp4Weight::geometry_only(lg.projection[0].0, lg.projection[0].1),
                Nvfp4Weight::geometry_only(lg.projection[1].0, lg.projection[1].1),
                Nvfp4Weight::geometry_only(lg.projection[2].0, lg.projection[2].1),
                Nvfp4Weight::geometry_only(lg.projection[3].0, lg.projection[3].1),
            ],
            gdn_output: Nvfp4Weight::geometry_only(lg.gdn_output.0, lg.gdn_output.1),
            ffn_gate: Nvfp4Weight::geometry_only(lg.ffn_gate.0, lg.ffn_gate.1),
            ffn_up: Nvfp4Weight::geometry_only(lg.ffn_up.0, lg.ffn_up.1),
            ffn_down: Nvfp4Weight::geometry_only(lg.ffn_down.0, lg.ffn_down.1),
            norm_in: identity_norm(lg.norm_in),
            norm_post: identity_norm(lg.norm_post),
            gdn_conv: Bf16Weight::geometry_only(lg.gdn_conv.0, lg.gdn_conv.1),
            gdn_ab: Bf16Weight::geometry_only(lg.gdn_ab.0, lg.gdn_ab.1),
            qk_norm: [identity_norm(head), identity_norm(head)],
            qkv_bf16: Bf16Weight::empty(),
            attn_out_bf16: Bf16Weight::empty(),
            gdn_out_bf16: Bf16Weight::empty(),
            dev: LayerDeviceSlots::default(),
            gdn_index,
        }
    }
}

impl Weights {
    /// The synthetic model of this topology.
    pub open spec fn is_synthetic(self, config: ModelConfig, seed: u64) -> bool {
        &&& self.per_layer@.len() == config.layer_kinds@.len()
        &&& forall|i: int|
            0 <= i < self.per_layer@.len() ==> (#[trigger] self.per_layer@[i]).is_synthetic(
                config,
                config.layer_kinds@[i],
                place_among_gdn(config.layer_kinds@, i),
                seed,
            )
        &&& self.embedding@.len() == config.vocab * config.hidden
        &&& forall|i: int|
            0 <= i < self.embedding@.len() ==> #[trigger] self.embedding@[i] == ratio_bits(
                synthetic_embedding(i as u64, seed) as int,
                31,
            )
        &&& self.final_norm@ == ones(config.hidden as int)
        &&& self.lm_head matches HeadWeight::Nvfp4(w) && w.is_synthetic(
            config.vocab,
            config.hidden,
            seed.wrapping_add(7),
        )
    }

    /// A deterministic model: a pure function of the seed and the topology.
    pub fn synthetic(config: &ModelConfig, seed: u64) -> (weights: Weights)
        requires
            buildable(*config),
        ensures
            weights.is_synthetic(*config, seed),
    {
        let mut per_layer: Vec<LayerWeights> = Vec::new();
        let mut gdn_index: usize = 0;
        while per_layer.len() < config.layer_kinds.len()
            invariant
                buildable(*config),
                per_layer@.len() <= config.layer_kinds@.len(),
                gdn_index == gdn_layers(config.layer_kinds@, per_layer@.len() as int),
                forall|i: int|
                    0 <= i < per_layer@.len() ==> (#[trigger] per_layer@[i]).is_synthetic(
                        *config,
                        config.layer_kinds@[i],
                        place_among_gdn(config.layer_kinds@, i),
                        seed,
                    ),
            decreases config.layer_kinds@.len() - per_layer@.len(),
        {
            let i: usize = per_layer.len();
            proof {
                gdn_layers_grow(config.layer_kinds@, 0, i as int);
            }
            match config.layer_kinds[i] {
                LayerKind::Gqa => {
                    per_layer.push(LayerWeights::synthetic_gqa(config, seed));
                },
                LayerKind::Gdn => {
                    per_layer.push(LayerWeights::synthetic_gdn(config, gdn_index, seed));
                    gdn_index = gdn_index + 1;
                },
            }
        }
        Weights {
            embedding: synthetic_table(config.vocab, config.hidden, seed),
            per_layer,
            final_norm: identity_norm(config.hidden),
            lm_head: HeadWeight::Nvfp4(
                Nvfp4Weight::synthetic(config.vocab, config.hidden, seed.wrapping_add(7)),
            ),
        }
    }

    /// A model of this topology that holds nothing at all.
    pub open spec fn is_placeholder(self, config: ModelConfig) -> bool {
        &&& self.embedding@.len() == 0
        &&& self.final_norm@.len() == 0
        &&& self.lm_head matches HeadWeight::Nvfp4(w) && w.is_bare(0, 0)
        &&& self.per_layer@.len() == config.layer_kinds@.len()
        &&& forall|i: int|
            0 <= i < self.per_layer@.len() ==> (#[trigger] self.per_layer@[i]).is_placeholder(
                config.layer_kinds@[i],
                place_among_gdn(config.layer_kinds@, i),
            )
    }

    /// A model of this topology that holds nothing.
    pub fn placeholder(config: &ModelConfig) -> (weights: Weights)
        ensures
            weights.is_placeholder(*config),
    {
        let mut per_layer: Vec<LayerWeights> = Vec::new();
        let mut gdn_index: usize = 0;
        while per_layer.len() < config.layer_kinds.len()
            invariant
                per_layer@.len() <= config.layer_kinds@.len(),
                gdn_index == gdn_layers(config.layer_kinds@, per_layer@.len() as int),
                forall|i: int|
                    0 <= i < per_layer@.len() ==> (#[trigger] per_layer@[i]).is_placeholder(
                        config.layer_kinds@[i],
                        place_among_gdn(config.layer_kinds@, i),
                    ),
            decreases config.layer_kinds@.len() - per_layer@.len(),
        {
            let i: usize = per_layer.len();
            proof {
                gdn_layers_grow(config.layer_kinds@, 0, i as int);
            }
            let kind = config.layer_kinds[i];
            if kind == LayerKind::Gdn {
                per_layer.push(LayerWeights::placeholder(kind, gdn_index));
                gdn_index = gdn_index + 1;
            } else {
                per_layer.push(LayerWeights::placeholder(kind, 0));
            }
        }
        Weights {
            embedding: Vec::new(),
            per_layer,
            final_norm: Vec::new(),
            lm_head: HeadWeight::Nvfp4(Nvfp4Weight::empty()),
        }
    }

    /// A model of these shapes whose content is elsewhere.
    pub open spec fn has_shapes(self, g: WeightsGeometry, config: ModelConfig) -> bool {
        &&& self.embedding@.len() == 0
        &&& self.final_norm@ == ones(config.hidden as int)
        &&& self.lm_head matches HeadWeight::Nvfp4(w) && w.is_bare(g.lm_head.0, g.lm_head.1)
        &&& self.per_layer@.len() == g.per_layer@.len()
        &&& forall|i: int|
            0 <= i < self.per_layer@.len() ==> (#[trigger] self.per_layer@[i]).has_shapes(
                g.per_layer@[i],
                config.head_dim,
                place_among_gdn(config.layer_kinds@, i),
            )
    }

    /// A model with the shapes its topology demands: the norms are identities
    /// and every other content is elsewhere.
    pub fn from_geometry(config: &ModelConfig) -> (weights: Weights)
        requires
            config.countable(),
            config.hidden <= usize::MAX,
            config.head_dim <= usize::MAX,
        ensures
            exists|g: WeightsGeometry| #[trigger]
                g.follows(*config) && weights.has_shapes(g, *config),
    {
        let geometry = WeightsGeometry::from_config(config);
        let mut per_layer: Vec<LayerWeights> = Vec::new();
        let mut gdn_index: usize = 0;
        while per_layer.len() < geometry.per_layer.len()
            invariant
                config.countable(),
                config.hidden <= usize::MAX,
                config.head_dim <= usize::MAX,
                geometry.follows(*config),
                per_layer@.len() <= geometry.per_layer@.len(),
                gdn_index == gdn_layers(config.layer_kinds@, per_layer@.len() as int),
                forall|i: int|
                    0 <= i < per_layer@.len() ==> (#[trigger] per_layer@[i]).has_shapes(
                        geometry.per_layer@[i],
                        config.head_dim,
                        place_among_gdn(config.layer_kinds@, i),
                    ),
            decreases geometry.per_layer@.len() - per_layer@.len(),
        {
            let i: usize = per_layer.len();
            let lg = &geometry.per_layer[i];
            proof {
                gdn_layers_grow(config.layer_kinds@, 0, i as int);
                assert(lg.follows(*config, config.layer_kinds@[i as int]));
            }
            if lg.kind == LayerKind::Gdn {
                per_layer.push(LayerWeights::of_geometry(lg, config.head_dim, gdn_index));
                gdn_index = gdn_index + 1;
            } else {
                per_layer.push(LayerWeights::of_geometry(lg, config.head_dim, 0));
            }
        }
        let weights = Weights {
            embedding: Vec::new(),
            per_layer,
            final_norm: identity_norm(config.hidden),
            lm_head: HeadWeight::Nvfp4(
                Nvfp4Weight::geometry_only(geometry.lm_head.0, geometry.lm_head.1),
            ),
        };
        assert(weights.has_shapes(geometry, *config));
        weights
    }

    /// Take the dequantized embedding table and head.
    pub fn with_w8_endpoints(self, endpoints: W8Endpoints) -> (weights: Weights)
        ensures
            weights == (Weights {
                embedding: endpoints.embedding,
                lm_head: HeadWeight::DequantBf16 {
                    data: endpoints.lm_head,
                    m: endpoints.lm_head_shape.0,
                    k: endpoints.lm_head_shape.1,
                },
                ..self
            }),
    {
        Weights {
            embedding: endpoints.embedding,
            per_layer: self.per_layer,
            final_norm: self.final_norm,
            lm_head: HeadWeight::DequantBf16 {
                data: endpoints.lm_head,
                m: endpoints.lm_head_shape.0,
                k: endpoints.lm_head_shape.1,
            },
        }
    }
}

/// The synthetic embedding table.
fn synthetic_table(vocab: u64, hidden: u64, seed: u64) -> (table: Vec<u16>)
    requires
        holdable(vocab as int, hidden as int),
    ensures
        table@.len() == vocab * hidden,
        forall|i: int|
            0 <= i < table@.len() ==> #[trigger] table@[i] == ratio_bits(
                synthetic_embedding(i as u64, seed) as int,
                31,
            ),
{
    let size: u64 = vocab * hidden;
    let mut table: Vec<u16> = Vec::new();
    let mut i: u64 = 0;
    while i < size
        invariant
            i <= size <= usize::MAX,
            table@.len() == i,
            forall|j: int|
                0 <= j < i ==> #[trigger] table@[j] == ratio_bits(
                    synthetic_embedding(j as u64, seed) as int,
                    31,
                ),
        decreases size - i,
    {
        let v: u64 = i.wrapping_mul(seed).wrapping_add(1) % 31;
        table.push(bf16_ratio(v, 31));
        i = i + 1;
    }
    table
}

/// The shape a synthetic weight comes to have: its own, or none where it would
/// hold nothing.
pub open spec fn held_shape(shape: (u64, u64)) -> (u64, u64) {
    if shape.0 == 0 || shape.1 == 0 {
        (0, 0)
    } else {
        shape
    }
}

/// The synthetic content of a model has the shapes its topology demands,
/// output rows by input width.
pub proof fn synthetic_content_has_the_demanded_shapes(
    config: ModelConfig,
    seed: u64,
    weights: Weights,
    geometry: WeightsGeometry,
    i: int,
)
    requires
        config.countable(),
        weights.is_synthetic(config, seed),
        geometry.follows(config),
        0 <= i < config.layer_kinds@.len(),
    ensures
        weights.lm_head.shape() == held_shape(geometry.lm_head),
        ({
            let lw = weights.per_layer@[i];
            let lg = geometry.per_layer@[i];
            &&& lw.kind == lg.kind
            &&& forall|j: int|
                0 <= j < 4 ==> ((#[trigger] lw.projection@[j]).m, lw.projection@[j].k)
                    == held_shape(lg.projection@[j])
            &&& (lw.gdn_output.m, lw.gdn_output.k) == held_shape(lg.gdn_output)
            &&& (lw.ffn_gate.m, lw.ffn_gate.k) == held_shape(lg.ffn_gate)
            &&& (lw.ffn_up.m, lw.ffn_up.k) == held_shape(lg.ffn_up)
            &&& (lw.ffn_down.m, lw.ffn_down.k) == held_shape(lg.ffn_down)
            &&& (lw.gdn_conv.m, lw.gdn_conv.k) == held_shape(lg.gdn_conv)
            &&& (lw.gdn_ab.m, lw.gdn_ab.k) == held_shape(lg.gdn_ab)
            &&& lw.norm_in@.len() == lg.norm_in
            &&& lw.norm_post@.len() == lg.norm_post
            &&& lw.qk_norm@[0]@.len() == lg.qk_norm
            &&& lw.qk_norm@[1]@.len() == lg.qk_norm
        }),
{
    let lw = weights.per_layer@[i];
    let lg = geometry.per_layer@[i];
    assert(lw.is_synthetic(
        config,
        config.layer_kinds@[i],
        place_among_gdn(config.layer_kinds@, i),
        seed,
    ));
    assert(lg.follows(config, config.layer_kinds@[i]));
    assert forall|j: int| 0 <= j < 4 implies ((#[trigger] lw.projection@[j]).m, lw.projection@[j].k)
        == held_shape(lg.projection@[j]) by {
        assert(j == 0 || j == 1 || j == 2 || j == 3);
    }
}

/// The weights of a synthetic layer are seeded one after the other, in the order
/// they are read: no two of them are of one seed.
pub proof fn synthetic_weights_are_seeded_apart(
    config: ModelConfig,
    lw: LayerWeights,
    gdn_index: int,
    seed: u64,
)
    requires
        config.countable(),
        seed <= u64::MAX - 9,
    ensures
        lw.is_synthetic(config, LayerKind::Gqa, gdn_index, seed) ==> {
            let (hidden, ffn) = (config.hidden, config.ffn_intermediate);
            let q = (config.num_q_heads * config.head_dim) as u64;
            let kv = (config.num_kv_heads * config.head_dim) as u64;
            &&& lw.projection@[0].is_synthetic(q, hidden, seed)
            &&& lw.projection@[1].is_synthetic(kv, hidden, (seed + 1) as u64)
            &&& lw.projection@[2].is_synthetic(kv, hidden, (seed + 2) as u64)
            &&& lw.projection@[3].is_synthetic(hidden, q, (seed + 3) as u64)
            &&& lw.ffn_gate.is_synthetic(ffn, hidden, (seed + 4) as u64)
            &&& lw.ffn_up.is_synthetic(ffn, hidden, (seed + 5) as u64)
            &&& lw.ffn_down.is_synthetic(hidden, ffn, (seed + 6) as u64)
        },
        lw.is_synthetic(config, LayerKind::Gdn, gdn_index, seed) ==> {
            let (hidden, ffn) = (config.hidden, config.ffn_intermediate);
            let rows = (config.gdn_q_width + config.gdn_state_cols + config.gdn_state_rows
                + config.gdn_z_width) as u64;
            &&& lw.projection@[0].is_synthetic(rows, hidden, seed)
            &&& lw.gdn_output.is_synthetic(hidden, config.gdn_state_rows, (seed + 1) as u64)
            &&& lw.ffn_gate.is_synthetic(ffn, hidden, (seed + 2) as u64)
            &&& lw.ffn_up.is_synthetic(ffn, hidden, (seed + 3) as u64)
            &&& lw.ffn_down.is_synthetic(hidden, ffn, (seed + 4) as u64)
            &&& lw.gdn_ab.is_synthetic(config.gdn_ab_width, hidden, (seed + 9) as u64)
        },
{
}

/// The values of a synthetic embedding go around thirty-one, from one on, by the
/// seed from each to the next.
pub proof fn synthetic_embeddings_go_around(i: u64, seed: u64)
    requires
        i * seed + seed + 1 <= u64::MAX,
        i < u64::MAX,
    ensures
        synthetic_embedding(0, seed) == 1,
        synthetic_embedding(i, seed) == (i * seed + 1) % 31,
        synthetic_embedding((i + 1) as u64, seed) == (i * seed + 1 + seed) % 31,
{
    assert(0 <= i * seed) by (nonlinear_arith);
    assert((i + 1) * seed == i * seed + seed) by (nonlinear_arith);
    assert(0 * seed == 0);
    vstd::arithmetic::div_mod::lemma_small_mod((i * seed) as nat, 0x1_0000_0000_0000_0000);
    vstd::arithmetic::div_mod::lemma_small_mod(
        ((i + 1) * seed) as nat,
        0x1_0000_0000_0000_0000,
    );
}

/// A layer made for its shapes alone has every one of them and no content but
/// norms of ones; a placeholder has neither shape nor content.
pub proof fn a_layer_of_shapes_has_them_all(
    lw: LayerWeights,
    lg: LayerGeometry,
    head_dim: u64,
    gdn_index: int,
)
    ensures
        lw.has_shapes(lg, head_dim, gdn_index) ==> {
            &&& lw.kind == lg.kind
            &&& lw.gdn_index == gdn_index
            &&& forall|j: int|
                0 <= j < 4 ==> (#[trigger] lw.projection@[j]).m == lg.projection@[j].0
                    && lw.projection@[j].k == lg.projection@[j].1 && lw.projection@[j].codes@.len()
                    == 0
            &&& lw.gdn_output.m == lg.gdn_output.0 && lw.gdn_output.k == lg.gdn_output.1
            &&& lw.ffn_gate.m == lg.ffn_gate.0 && lw.ffn_gate.k == lg.ffn_gate.1
            &&& lw.ffn_up.m == lg.ffn_up.0 && lw.ffn_up.k == lg.ffn_up.1
            &&& lw.ffn_down.m == lg.ffn_down.0 && lw.ffn_down.k == lg.ffn_down.1
            &&& lw.gdn_conv.m == lg.gdn_conv.0 && lw.gdn_conv.k == lg.gdn_conv.1
            &&& lw.gdn_ab.m == lg.gdn_ab.0 && lw.gdn_ab.k == lg.gdn_ab.1
            &&& lw.norm_in@.len() == lg.norm_in && lw.norm_post@.len() == lg.norm_post
            &&& forall|i: int| 0 <= i < lg.norm_in ==> #[trigger] lw.norm_in@[i] == 0x3F80
            &&& lg.qk_norm > 0 ==> lw.qk_norm@[0]@.len() == head_dim && lw.qk_norm@[1]@.len()
                == head_dim
            &&& lg.qk_norm == 0 ==> lw.qk_norm@[0]@.len() == 0 && lw.qk_norm@[1]@.len() == 0
            &&& lw.dev.qkv is None && lw.dev.attn_out is None && lw.dev.gdn_in is None
                && lw.dev.gdn_out is None && lw.dev.mlp_gate_up is None && lw.dev.mlp_down is None
        },
        lw.is_placeholder(lg.kind, gdn_index) ==> {
            &&& lw.kind == lg.kind
            &&& forall|j: int|
                0 <= j < 4 ==> (#[trigger] lw.projection@[j]).m == 0 && lw.projection@[j].k == 0
            &&& lw.ffn_gate.m == 0 && lw.ffn_up.m == 0 && lw.ffn_down.m == 0
            &&& lw.norm_in@.len() == 0 && lw.norm_post@.len() == 0
        },
{
    if lw.has_shapes(lg, head_dim, gdn_index) {
        assert forall|j: int| 0 <= j < 4 implies (#[trigger] lw.projection@[j]).m
            == lg.projection@[j].0 && lw.projection@[j].k == lg.projection@[j].1
            && lw.projection@[j].codes@.len() == 0 by {
            assert(lw.projection@[j].is_bare(lg.projection@[j].0, lg.projection@[j].1));
        }
    }
    if lw.is_placeholder(lg.kind, gdn_index) {
        assert forall|j: int| 0 <= j < 4 implies (#[trigger] lw.projection@[j]).m == 0
            && lw.projection@[j].k == 0 by {
            assert(lw.projection@[j].is_bare(0, 0));
        }
    }
}

} // verus!
