//! The topology a forward pass is parameterized by.

use vstd::prelude::*;

verus! {

/// The kind of attention a decoder layer uses.
#[derive(Debug, Clone, Copy, PartialEq, Eq, Structural)]
pub enum LayerKind {
    /// Grouped-query attention.
    Gqa,
    /// Gated DeltaNet linear attention, with a recurrent state.
    Gdn,
}

/// The model topology.
#[derive(Debug, Clone)]
pub struct ModelConfig {
    /// Decoder layers.
    pub num_layers: usize,
    /// Each layer's kind, in order.
    pub layer_kinds: Vec<LayerKind>,
    /// The width of the residual stream.
    pub hidden: u64,
    /// The vocabulary size.
    pub vocab: u64,
    /// GQA query heads.
    pub num_q_heads: u64,
    /// GQA KV heads.
    pub num_kv_heads: u64,
    pub head_dim: u64,
    /// Rows of a GDN layer's recurrent state.
    pub gdn_state_rows: u64,
    /// Columns of a GDN layer's recurrent state.
    pub gdn_state_cols: u64,
    /// GDN layers.
    pub gdn_num_layers: u64,
    /// Query rows of the GDN input projection.
    pub gdn_q_width: u64,
    /// Output-gate rows of the GDN input projection, which bypass the conv.
    pub gdn_z_width: u64,
    /// Rows of the alpha and beta projection, half of them each.
    pub gdn_ab_width: u64,
    /// Rotated dimensions of each head.
    pub rotary_dim: u64,
    /// The rotary base, as the bit pattern of an IEEE double.
    pub rope_theta_bits: u64,
    /// The width of the gated feed-forward block.
    pub ffn_intermediate: u64,
    /// Keys per KV block.
    pub block_size: u64,
    /// KV blocks per request.
    pub num_blocks: u64,
}

/// `10^7` as the bit pattern of an IEEE double.
pub const ROPE_THETA_BITS: u64 = 0x4163_12D0_0000_0000;

impl ModelConfig {
    /// The widths the forward pass forms can be counted: the rows of the fused
    /// query, key and value, and those of the recurrent input.
    pub open spec fn countable(self) -> bool {
        &&& self.q_width() + self.kv_width() <= u64::MAX
        &&& self.in_width() <= u64::MAX
    }

    /// Whether the widths the forward pass forms can be counted.
    pub fn is_countable(&self) -> (countable: bool)
        ensures
            countable == self.countable(),
    {
        let heads: bool = match (
            self.num_q_heads.checked_mul(self.head_dim),
            self.num_kv_heads.checked_mul(self.head_dim),
        ) {
            (Some(q), Some(kv)) => q.checked_add(kv).is_some(),
            _ => false,
        };
        let conv: Option<u64> = match self.gdn_q_width.checked_add(self.gdn_state_cols) {
            Some(key) => key.checked_add(self.gdn_state_rows),
            None => None,
        };
        let input: bool = match conv {
            Some(conv) => conv.checked_add(self.gdn_z_width).is_some(),
            None => false,
        };
        proof {
            assert(0 <= self.num_q_heads * self.head_dim) by (nonlinear_arith);
            assert(0 <= self.num_kv_heads * self.head_dim) by (nonlinear_arith);
        }
        heads && input
    }

    pub open spec fn q_width(self) -> int {
        self.num_q_heads * self.head_dim
    }

    pub open spec fn kv_width(self) -> int {
        self.num_kv_heads * self.head_dim
    }

    /// What the causal conv covers: the query, key and value rows.
    pub open spec fn conv_width(self) -> int {
        self.gdn_q_width + self.gdn_state_cols + self.gdn_state_rows
    }

    /// The rows of the GDN input projection.
    pub open spec fn in_width(self) -> int {
        self.conv_width() + self.gdn_z_width
    }

    /// One GDN layer's recurrent state.
    pub open spec fn state_elems(self) -> int {
        self.gdn_state_rows * self.gdn_state_cols
    }

    /// The GQA query and output width.
    pub fn gqa_width(&self) -> (width: u64)
        requires
            self.q_width() <= u64::MAX,
        ensures
            width == self.q_width(),
            width == self.num_q_heads * self.head_dim,
    {
        self.num_q_heads * self.head_dim
    }

    /// The GQA key and value width.
    pub fn gqa_kv_width(&self) -> (width: u64)
        requires
            self.kv_width() <= u64::MAX,
        ensures
            width == self.kv_width(),
            width == self.num_kv_heads * self.head_dim,
    {
        self.num_kv_heads * self.head_dim
    }

    /// The GDN step's feature width: key, value, gate and beta.
    pub fn gdn_state_dim(&self) -> (width: u64)
        requires
            self.gdn_state_cols + self.gdn_state_rows + 2 <= u64::MAX,
        ensures
            width == self.gdn_state_cols + self.gdn_state_rows + 2,
    {
        self.gdn_state_cols + self.gdn_state_rows + 2
    }

    /// The size of one GDN layer's state matrix.
    pub fn gdn_state_mat(&self) -> (size: u64)
        requires
            self.state_elems() <= u64::MAX,
        ensures
            size == self.state_elems(),
            size == self.gdn_state_rows * self.gdn_state_cols,
    {
        self.gdn_state_rows * self.gdn_state_cols
    }

    /// The rows of the GDN input projection: query, key, value and gate.
    pub fn gdn_in_proj_m(&self) -> (rows: u64)
        requires
            self.in_width() <= u64::MAX,
        ensures
            rows == self.in_width(),
            rows == self.gdn_q_width + self.gdn_state_cols + self.gdn_state_rows
                + self.gdn_z_width,
    {
        self.gdn_q_width + self.gdn_state_cols + self.gdn_state_rows + self.gdn_z_width
    }

    /// The channels of the GDN causal conv: query, key and value.
    pub fn gdn_conv_channels(&self) -> (channels: u64)
        requires
            self.conv_width() <= u64::MAX,
        ensures
            channels == self.conv_width(),
            channels == self.gdn_q_width + self.gdn_state_cols + self.gdn_state_rows,
    {
        self.gdn_q_width + self.gdn_state_cols + self.gdn_state_rows
    }

    /// The width of the GDN readout.
    pub fn gdn_readout_k(&self) -> (width: u64)
        ensures
            width == self.gdn_state_rows,
    {
        self.gdn_state_rows
    }

    /// The rotated pairs of each head.
    pub fn rope_pairs(&self) -> (pairs: u64)
        ensures
            pairs == self.rotary_dim / 2,
    {
        self.rotary_dim / 2
    }

    /// A small topology with one layer of each kind, whose GEMMs all have an
    /// input width that is a multiple of sixteen.
    pub fn synthetic() -> (config: ModelConfig)
        ensures
            config.num_layers == 2,
            config.layer_kinds@ == seq![LayerKind::Gdn, LayerKind::Gqa],
            config.hidden == 64,
            config.vocab == 256,
            config.num_q_heads == 4,
            config.num_kv_heads == 2,
            config.head_dim == 16,
            config.gdn_state_rows == 16,
            config.gdn_state_cols == 8,
            config.gdn_num_layers == 1,
            config.gdn_q_width == 0,
            config.gdn_z_width == 0,
            config.gdn_ab_width == 0,
            config.rotary_dim == 8,
            config.rope_theta_bits == ROPE_THETA_BITS,
            config.rope_theta_bits == 0x4163_12D0_0000_0000,
            config.ffn_intermediate == 32,
            config.block_size == 4,
            config.num_blocks == 8,
            config.countable(),
            config.wf(),
    {
        let layer_kinds = vec![LayerKind::Gdn, LayerKind::Gqa];
        proof {
            assert(layer_kinds@ =~= seq![LayerKind::Gdn, LayerKind::Gqa]);
            assert(gdn_layers(layer_kinds@, 0) == 0);
            assert(gdn_layers(layer_kinds@, 1) == 1);
            assert(gdn_layers(layer_kinds@, 2) == 1);
        }
        ModelConfig {
            num_layers: 2,
            layer_kinds,
            hidden: 64,
            vocab: 256,
            num_q_heads: 4,
            num_kv_heads: 2,
            head_dim: 16,
            gdn_state_rows: 16,
            gdn_state_cols: 8,
            gdn_num_layers: 1,
            gdn_q_width: 0,
            gdn_z_width: 0,
            gdn_ab_width: 0,
            rotary_dim: 8,
            rope_theta_bits: ROPE_THETA_BITS,
            ffn_intermediate: 32,
            block_size: 4,
            num_blocks: 8,
        }
    }

    /// The Qwen 3.8-27B topology: every fourth layer attends, the others are
    /// recurrent.
    pub fn qwen38_27b() -> (config: ModelConfig)
        ensures
            config.num_layers == 64,
            config.layer_kinds@ == Seq::new(64, |i: int| qwen_kind(i)),
            forall|i: int|
                0 <= i < 64 ==> ((#[trigger] config.layer_kinds@[i]) == LayerKind::Gqa <==> i % 4
                    == 3),
            config.hidden == 5120,
            config.vocab == 248_320,
            config.num_q_heads == 24,
            config.num_kv_heads == 4,
            config.head_dim == 256,
            config.gdn_state_rows == 6144,
            config.gdn_state_cols == 2048,
            config.gdn_num_layers == 48,
            config.gdn_q_width == 2048,
            config.gdn_z_width == 6144,
            config.gdn_ab_width == 96,
            config.rotary_dim == 64,
            config.rope_theta_bits == ROPE_THETA_BITS,
            config.rope_theta_bits == 0x4163_12D0_0000_0000,
            config.ffn_intermediate == 17_408,
            config.block_size == 64,
            config.num_blocks == 4096,
            config.countable(),
            config.wf(),
    {
        let num_layers: usize = 64;
        let mut layer_kinds: Vec<LayerKind> = Vec::new();
        let mut i: usize = 0;
        while i < num_layers
            invariant
                i <= num_layers == 64,
                layer_kinds@ == Seq::new(i as nat, |k: int| qwen_kind(k)),
                gdn_layers(layer_kinds@, i as int) == i - i / 4,
            decreases num_layers - i,
        {
            let ghost was = layer_kinds@;
            if (i + 1) % 4 == 0 {
                layer_kinds.push(LayerKind::Gqa);
            } else {
                layer_kinds.push(LayerKind::Gdn);
            }
            proof {
                assert(layer_kinds@ =~= Seq::new((i + 1) as nat, |k: int| qwen_kind(k)));
                gdn_layers_same(was, layer_kinds@, i as int);
            }
            i = i + 1;
        }
        ModelConfig {
            num_layers,
            layer_kinds,
            hidden: 5120,
            vocab: 248_320,
            num_q_heads: 24,
            num_kv_heads: 4,
            head_dim: 256,
            gdn_state_rows: 6144,
            gdn_state_cols: 2048,
            gdn_num_layers: 48,
            gdn_q_width: 2048,
            gdn_z_width: 6144,
            gdn_ab_width: 96,
            rotary_dim: 64,
            rope_theta_bits: ROPE_THETA_BITS,
            ffn_intermediate: 17_408,
            block_size: 64,
            num_blocks: 4096,
        }
    }

    /// The layer list is as long as it says, and counts its GDN layers.
    pub open spec fn wf(self) -> bool {
        &&& self.layer_kinds@.len() == self.num_layers
        &&& gdn_layers(self.layer_kinds@, self.num_layers as int) == self.gdn_num_layers
    }
}

/// The kind of layer `i` of the Qwen 3.8-27B stack.
pub open spec fn qwen_kind(i: int) -> LayerKind {
    if (i + 1) % 4 == 0 {
        LayerKind::Gqa
    } else {
        LayerKind::Gdn
    }
}

/// The GDN layers among the first `n`: the index of the next one among them.
pub open spec fn gdn_layers(kinds: Seq<LayerKind>, n: int) -> int
    decreases n,
{
    if n <= 0 {
        0
    } else {
        gdn_layers(kinds, n - 1) + (if kinds[n - 1] == LayerKind::Gdn { 1int } else { 0 })
    }
}

/// The GDN layers before a layer and those from it on are all there are: a
/// layer's count among them is the number of GDN layers it comes after.
pub proof fn gdn_layers_are_counted_once(kinds: Seq<LayerKind>, n: int)
    requires
        0 <= n <= kinds.len(),
    ensures
        gdn_layers(kinds, n) == kinds.take(n).filter(|kind: LayerKind| kind == LayerKind::Gdn).len(),
    decreases n,
{
    if n > 0 {
        gdn_layers_are_counted_once(kinds, n - 1);
        assert(kinds.take(n).drop_last() =~= kinds.take(n - 1));
        assert(kinds.take(n).last() == kinds[n - 1]);
        reveal(Seq::filter);
    } else {
        assert(kinds.take(0) =~= Seq::empty());
        reveal(Seq::filter);
    }
}

pub proof fn gdn_layers_same(a: Seq<LayerKind>, b: Seq<LayerKind>, n: int)
    requires
        0 <= n <= a.len(),
        n <= b.len(),
        forall|i: int| 0 <= i < n ==> a[i] == b[i],
    ensures
        gdn_layers(a, n) == gdn_layers(b, n),
    decreases n,
{
    if n > 0 {
        gdn_layers_same(a, b, n - 1);
    }
}

/// The count of GDN layers only grows, by one at most for each layer.
pub proof fn gdn_layers_grow(kinds: Seq<LayerKind>, n: int, m: int)
    requires
        0 <= n <= m,
    ensures
        0 <= gdn_layers(kinds, n) <= gdn_layers(kinds, m) <= gdn_layers(kinds, n) + (m - n),
        gdn_layers(kinds, m) <= m,
    decreases m,
{
    if n < m {
        gdn_layers_grow(kinds, n, m - 1);
    } else if n > 0 {
        gdn_layers_grow(kinds, n - 1, n - 1);
    }
}

} // verus!
