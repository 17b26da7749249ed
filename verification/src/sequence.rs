//! One request's compute state: its paged KV cache, the recurrent state of its
//! GDN layers, and what it has generated.

use crate::model::ModelConfig;
use crate::types::TokenId;
use vstd::prelude::*;

verus! {

/// The elements of one KV plane: blocks, heads, keys and dimensions.
pub open spec fn kv_plane(config: ModelConfig) -> int {
    config.num_blocks * config.num_kv_heads * config.block_size * config.head_dim
}

/// The elements of the recurrent state of all GDN layers.
pub open spec fn gdn_plane(config: ModelConfig) -> int {
    config.gdn_num_layers * config.gdn_state_rows * config.gdn_state_cols
}

/// The elements of the rolling conv state of all GDN layers: three taps to a
/// channel.
pub open spec fn conv_plane(config: ModelConfig) -> int {
    config.gdn_num_layers * config.conv_width() * 3
}

/// The keys the cache has room for.
pub open spec fn kv_room(config: ModelConfig) -> int {
    config.num_blocks * config.block_size
}

/// A sequence of this topology can be held.
pub open spec fn roomy(config: ModelConfig) -> bool {
    &&& config.countable()
    &&& config.num_blocks <= i32::MAX
    &&& config.num_blocks * config.num_kv_heads <= u64::MAX
    &&& config.num_blocks * config.num_kv_heads * config.block_size <= u64::MAX
    &&& 2 * kv_plane(config) <= usize::MAX
    &&& 2 * kv_plane(config) <= u64::MAX
    &&& config.gdn_num_layers * config.gdn_state_rows <= u64::MAX
    &&& gdn_plane(config) <= usize::MAX
    &&& gdn_plane(config) <= u64::MAX
    &&& config.gdn_num_layers * config.conv_width() <= u64::MAX
    &&& conv_plane(config) <= usize::MAX
    &&& conv_plane(config) <= u64::MAX
    &&& kv_room(config) <= u64::MAX
    &&& config.num_kv_heads * config.block_size + config.num_kv_heads <= u64::MAX
    &&& (config.num_kv_heads * config.block_size + config.num_kv_heads) * config.head_dim
        <= u64::MAX / 2
}

/// The product of four counts, where every step of it can be counted.
fn product(a: u64, b: u64, c: u64, d: u64) -> (product: Option<u64>)
    ensures
        product is Some <==> a * b <= u64::MAX && a * b * c <= u64::MAX && a * b * c * d
            <= u64::MAX,
        product matches Some(p) ==> p == a * b * c * d,
{
    match a.checked_mul(b) {
        Some(ab) => match ab.checked_mul(c) {
            Some(abc) => abc.checked_mul(d),
            None => None,
        },
        None => None,
    }
}

/// Whether a sequence of this topology can be held.
pub fn is_roomy(config: &ModelConfig) -> (held: bool)
    ensures
        held == roomy(*config),
{
    if !config.is_countable() || config.num_blocks > i32::MAX as u64 {
        return false;
    }
    let kv = product(
        config.num_blocks,
        config.num_kv_heads,
        config.block_size,
        config.head_dim,
    );
    let plane: u64 = match kv {
        Some(plane) => plane,
        None => {
            return false;
        },
    };
    let conv: u64 = config.gdn_conv_channels();
    let gdn = product(config.gdn_num_layers, config.gdn_state_rows, config.gdn_state_cols, 1);
    let taps = product(config.gdn_num_layers, conv, 3, 1);
    let states: bool = match (gdn, taps) {
        (Some(g), Some(t)) => g <= usize::MAX as u64 && t <= usize::MAX as u64,
        _ => false,
    };
    let room: bool = config.num_blocks.checked_mul(config.block_size).is_some();
    let width: Option<u64> = config.num_kv_heads.checked_mul(config.block_size);
    let keys: bool = match width {
        Some(w) => match w.checked_add(config.num_kv_heads) {
            Some(w) => match w.checked_mul(config.head_dim) {
                Some(k) => k <= u64::MAX / 2,
                None => false,
            },
            None => false,
        },
        None => false,
    };
    let cache: bool = match plane.checked_mul(2) {
        Some(both) => both <= usize::MAX as u64,
        None => false,
    };
    states && room && keys && cache
}

/// One request's compute state.
#[derive(Debug)]
pub struct SequenceState {
    /// Keys, then values: `[block][kv head][key][dim]` bf16 patterns each.
    pub kv_cache: Vec<u16>,
    /// `[gdn layer][row][col]` bf16 patterns.
    pub gdn_state: Vec<u16>,
    /// `[gdn layer][channel][tap]` bf16 patterns.
    pub gdn_conv_state: Vec<u16>,
    /// Logical block to physical page.
    pub block_table: Vec<i32>,
    /// Keys placed so far.
    pub kv_len: u64,
    /// The rotary position of the next token.
    pub seq_pos: u64,
    /// The token the next decode step starts from.
    pub last_generated: Option<TokenId>,
    pub generated: u32,
    pub max_tokens: Option<u32>,
}

/// `n` zeros.
pub open spec fn zeros(n: int) -> Seq<u16> {
    Seq::new(n as nat, |i: int| 0u16)
}

/// `n` zeros.
fn zeroed(n: u64) -> (buffer: Vec<u16>)
    requires
        n <= usize::MAX,
    ensures
        buffer@ == zeros(n as int),
{
    let mut buffer: Vec<u16> = Vec::new();
    let mut i: u64 = 0;
    while i < n
        invariant
            i <= n <= usize::MAX,
            buffer@ == zeros(i as int),
        decreases n - i,
    {
        buffer.push(0);
        assert(buffer@ =~= zeros(i + 1));
        i = i + 1;
    }
    buffer
}

/// Where dimension `d` of KV head `h` stands, for a key in `slot`.
pub open spec fn kv_index(config: ModelConfig, slot: int, h: int, d: int) -> int {
    (h * config.block_size + slot) * config.head_dim + d
}

/// The keys of a KV head stand together, a head's dimensions to each: the next
/// dimension is the next element, the next slot a head's width on, the next head
/// a block of keys on.
pub proof fn keys_stand_in_order(config: ModelConfig, slot: int, h: int, d: int)
    ensures
        kv_index(config, 0, 0, 0) == 0,
        kv_index(config, slot, h, d + 1) == kv_index(config, slot, h, d) + 1,
        kv_index(config, slot + 1, h, d) == kv_index(config, slot, h, d) + config.head_dim,
        kv_index(config, slot, h + 1, d) == kv_index(config, slot, h, d) + config.block_size
            * config.head_dim,
{
    let (b, w) = (config.block_size as int, config.head_dim as int);
    assert((h * b + (slot + 1)) * w == (h * b + slot) * w + w) by (nonlinear_arith);
    assert(((h + 1) * b + slot) * w == (h * b + slot) * w + b * w) by (nonlinear_arith);
    assert(0 * b == 0 && 0 * w == 0);
}

/// What was placed in a slot is found there again, each head's own part of the
/// row under that head, the key in the first plane and the value as far into
/// the second; and what stands in any other slot of the block is as it was.
pub proof fn what_was_placed_is_found_again(
    config: ModelConfig,
    before: Seq<u16>,
    after: Seq<u16>,
    slot: int,
    k: Seq<u16>,
    v: Seq<u16>,
    h: int,
    d: int,
    other: int,
)
    requires
        placed(config, before, after, slot, k, v),
        before.len() == 2 * kv_plane(config),
        0 <= slot < config.block_size,
        0 <= other < config.block_size,
        0 <= h < config.num_kv_heads,
        0 <= d < config.head_dim,
        kv_index(config, slot, h, d) < kv_plane(config),
        kv_index(config, other, h, d) < kv_plane(config),
    ensures
        ({
            let plane = config.num_blocks * config.num_kv_heads * config.block_size
                * config.head_dim;
            let at = (h * config.block_size + slot) * config.head_dim + d;
            let beside = (h * config.block_size + other) * config.head_dim + d;
            &&& after[at] == k[h * config.head_dim + d]
            &&& after[plane + at] == v[h * config.head_dim + d]
            &&& other != slot ==> after[beside] == before[beside] && after[plane + beside]
                == before[plane + beside]
        }),
{
    let plane = kv_plane(config);
    let beside = kv_index(config, other, h, d);
    if other != slot {
        let (b, w) = (config.block_size as int, config.head_dim as int);
        let place = h * b + other;
        assert(0 <= beside) by (nonlinear_arith)
            requires
                beside == (h * b + other) * w + d,
                0 <= h,
                0 <= b,
                0 <= other,
                0 <= w,
                0 <= d,
        ;
        assert forall|h2: int, d2: int|
            0 <= h2 < config.num_kv_heads && 0 <= d2 < config.head_dim implies beside
            != #[trigger] kv_index(config, slot, h2, d2) by {
            let there = h2 * b + slot;
            if beside == kv_index(config, slot, h2, d2) {
                assert(place == there) by (nonlinear_arith)
                    requires
                        place * w + d == there * w + d2,
                        0 <= d < w,
                        0 <= d2 < w,
                ;
                assert(false) by (nonlinear_arith)
                    requires
                        h * b + other == h2 * b + slot,
                        0 <= other < b,
                        0 <= slot < b,
                        other != slot,
                ;
            }
        }
        assert forall|h2: int, d2: int|
            0 <= h2 < config.num_kv_heads && 0 <= d2 < config.head_dim implies 0
            <= #[trigger] kv_index(config, slot, h2, d2) by {
            let x = kv_index(config, slot, h2, d2);
            assert(0 <= x) by (nonlinear_arith)
                requires
                    x == (h2 * b + slot) * w + d2,
                    0 <= h2,
                    0 <= b,
                    0 <= slot,
                    0 <= w,
                    0 <= d2,
            ;
        }
        assert(!touched(config, slot, beside)) by {
            if touched(config, slot, beside) {
                let (h2, d2) = choose|h2: int, d2: int|
                    0 <= h2 < config.num_kv_heads && 0 <= d2 < config.head_dim && (beside
                        == #[trigger] kv_index(config, slot, h2, d2) || beside == kv_plane(config)
                        + kv_index(config, slot, h2, d2));
                assert(0 <= kv_index(config, slot, h2, d2));
            }
        }
        assert(!touched(config, slot, plane + beside)) by {
            if touched(config, slot, plane + beside) {
                let (h2, d2) = choose|h2: int, d2: int|
                    0 <= h2 < config.num_kv_heads && 0 <= d2 < config.head_dim && (plane + beside
                        == #[trigger] kv_index(config, slot, h2, d2) || plane + beside == kv_plane(
                        config,
                    ) + kv_index(config, slot, h2, d2));
                assert(beside != kv_index(config, slot, h2, d2));
                same_block(config, slot, h2, d2, beside);
            }
        }
    }
}

/// An element of a key in some block is not past its plane by more than the
/// plane's first block reaches.
proof fn same_block(config: ModelConfig, slot: int, h: int, d: int, beside: int)
    requires
        0 <= slot < config.block_size,
        0 <= h < config.num_kv_heads,
        0 <= d < config.head_dim,
        0 <= beside < kv_plane(config),
    ensures
        kv_index(config, slot, h, d) < kv_plane(config),
{
    let (n, heads) = (config.num_blocks as int, config.num_kv_heads as int);
    let (b, w) = (config.block_size as int, config.head_dim as int);
    let x = kv_index(config, slot, h, d);
    let place = h * b + slot;
    assert(place + 1 <= heads * b) by (nonlinear_arith)
        requires
            place == h * b + slot,
            slot < b,
            h + 1 <= heads,
            0 <= b,
    ;
    assert(x < heads * b * w) by (nonlinear_arith)
        requires
            x == place * w + d,
            place + 1 <= heads * b,
            0 <= d < w,
    ;
    let one = heads * b * w;
    assert(n * heads * b * w == n * one) by (nonlinear_arith)
        requires
            one == heads * b * w,
    ;
    assert(0 <= one) by (nonlinear_arith)
        requires
            one == heads * b * w,
            0 <= heads,
            0 <= b,
            0 <= w,
    ;
    assert(n * one >= one) by (nonlinear_arith)
        requires
            n * one > 0,
            one >= 0,
            n >= 0,
    ;
}

/// The cache after one key and value were placed in `slot`.
pub open spec fn placed(
    config: ModelConfig,
    before: Seq<u16>,
    after: Seq<u16>,
    slot: int,
    k: Seq<u16>,
    v: Seq<u16>,
) -> bool {
    let plane = kv_plane(config);
    &&& after.len() == before.len()
    &&& forall|h: int, d: int|
        0 <= h < config.num_kv_heads && 0 <= d < config.head_dim && (#[trigger] kv_index(
            config,
            slot,
            h,
            d,
        )) < plane ==> after[kv_index(config, slot, h, d)] == k[h * config.head_dim + d]
            && after[plane + kv_index(config, slot, h, d)] == v[h * config.head_dim + d]
    &&& forall|x: int|
        0 <= x < before.len() && !touched(config, slot, x) ==> #[trigger] after[x] == before[x]
}

/// Whether a key in `slot` has an element at `x`, in either plane.
pub open spec fn touched(config: ModelConfig, slot: int, x: int) -> bool {
    exists|h: int, d: int|
        0 <= h < config.num_kv_heads && 0 <= d < config.head_dim && (x == #[trigger] kv_index(
            config,
            slot,
            h,
            d,
        ) || x == kv_plane(config) + kv_index(config, slot, h, d))
}

/// What was placed up to dimension `d` of head `h`, and nothing else.
spec fn placed_until(
    config: ModelConfig,
    before: Seq<u16>,
    after: Seq<u16>,
    slot: int,
    k: Seq<u16>,
    v: Seq<u16>,
    hn: int,
    dn: int,
) -> bool {
    let plane = kv_plane(config);
    &&& after.len() == before.len()
    &&& forall|h: int, d: int|
        0 <= h < config.num_kv_heads && 0 <= d < config.head_dim && (h < hn || h == hn && d < dn)
            && (#[trigger] kv_index(config, slot, h, d)) < plane ==> after[kv_index(
            config,
            slot,
            h,
            d,
        )] == k[h * config.head_dim + d] && after[plane + kv_index(config, slot, h, d)] == v[h
            * config.head_dim + d]
    &&& forall|x: int|
        0 <= x < before.len() && !touched(config, slot, x) ==> #[trigger] after[x] == before[x]
}

/// Distinct elements of a key stand at distinct places.
proof fn kv_index_is_unique(config: ModelConfig, slot: int, h: int, d: int, h2: int, d2: int)
    requires
        config.block_size >= 1,
        0 <= h,
        0 <= h2,
        0 <= slot,
        0 <= d < config.head_dim,
        0 <= d2 < config.head_dim,
        kv_index(config, slot, h, d) == kv_index(config, slot, h2, d2),
    ensures
        h == h2 && d == d2,
{
    let head = config.head_dim as int;
    let block = config.block_size as int;
    let a = h * block + slot;
    let b = h2 * block + slot;
    assert(a == b) by (nonlinear_arith)
        requires
            a * head + d == b * head + d2,
            0 <= d < head,
            0 <= d2 < head,
    ;
    assert(h == h2) by (nonlinear_arith)
        requires
            h * block == h2 * block,
            block >= 1,
    ;
}

proof fn kv_index_fits(config: ModelConfig, slot: int, h: int, d: int)
    requires
        roomy(config),
        0 <= h < config.num_kv_heads,
        0 <= slot < config.num_kv_heads,
        0 <= d < config.head_dim,
    ensures
        0 <= h * config.block_size + slot <= u64::MAX,
        0 <= h * config.block_size <= u64::MAX,
        0 <= kv_index(config, slot, h, d) <= u64::MAX / 2,
        0 <= (h * config.block_size + slot) * config.head_dim <= u64::MAX / 2,
        0 <= h * config.head_dim + d < config.kv_width(),
        0 <= h * config.head_dim <= config.kv_width(),
        config.block_size == 0 ==> kv_plane(config) == 0,
{
    let heads = config.num_kv_heads as int;
    let block = config.block_size as int;
    let head = config.head_dim as int;
    let a = h * block + slot;
    assert(0 <= h * block && h * block + block <= heads * block) by (nonlinear_arith)
        requires
            0 <= h,
            h + 1 <= heads,
            0 <= block,
    ;
    assert(0 <= a <= heads * block + heads - 1);
    assert(0 <= a * head && a * head + head <= (heads * block + heads) * head) by (nonlinear_arith)
        requires
            0 <= a,
            a + 1 <= heads * block + heads,
            0 <= head,
    ;
    assert(0 <= h * head && h * head + head <= heads * head) by (nonlinear_arith)
        requires
            0 <= h,
            h + 1 <= heads,
            0 <= head,
    ;
    if block == 0 {
        assert(kv_plane(config) == 0) by (nonlinear_arith)
            requires
                kv_plane(config) == config.num_blocks * heads * block * head,
                block == 0,
        ;
    }
}

impl SequenceState {
    /// The buffers are as large as the topology says.
    pub open spec fn wf(self, config: ModelConfig) -> bool {
        &&& self.kv_cache@.len() == 2 * kv_plane(config)
        &&& self.gdn_state@.len() == gdn_plane(config)
        &&& self.gdn_conv_state@.len() == conv_plane(config)
        &&& self.block_table@.len() == config.num_blocks
        &&& self.generated < u32::MAX
    }

    /// A sequence that nothing was prefilled into.
    pub fn new(config: &ModelConfig, max_tokens: Option<u32>) -> (state: SequenceState)
        requires
            roomy(*config),
        ensures
            state.wf(*config),
            state.kv_cache@ == zeros(2 * kv_plane(*config)),
            state.gdn_state@ == zeros(gdn_plane(*config)),
            state.gdn_conv_state@ == zeros(conv_plane(*config)),
            state.block_table@ == Seq::new(config.num_blocks as nat, |b: int| b as i32),
            state.kv_len == 0,
            state.seq_pos == 0,
            state.last_generated is None,
            state.generated == 0,
            state.max_tokens == max_tokens,
            state.kv_cache@.len() == 2 * (config.num_blocks * config.num_kv_heads
                * config.block_size * config.head_dim),
            state.gdn_state@.len() == config.gdn_num_layers * config.gdn_state_rows
                * config.gdn_state_cols,
            state.gdn_conv_state@.len() == config.gdn_num_layers * (config.gdn_q_width
                + config.gdn_state_cols + config.gdn_state_rows) * 3,
            forall|i: int| 0 <= i < state.kv_cache@.len() ==> #[trigger] state.kv_cache@[i] == 0,
            forall|i: int| 0 <= i < state.gdn_state@.len() ==> #[trigger] state.gdn_state@[i] == 0,
            forall|i: int|
                0 <= i < state.gdn_conv_state@.len() ==> #[trigger] state.gdn_conv_state@[i] == 0,
    {
        let plane: u64 = config.num_blocks * config.num_kv_heads * config.block_size
            * config.head_dim;
        let mat: u64 = config.gdn_num_layers * config.gdn_state_rows * config.gdn_state_cols;
        let conv: u64 = config.gdn_num_layers * config.gdn_conv_channels() * 3;
        let mut block_table: Vec<i32> = Vec::new();
        let mut b: u64 = 0;
        while b < config.num_blocks
            invariant
                b <= config.num_blocks <= i32::MAX,
                block_table@ == Seq::new(b as nat, |n: int| n as i32),
            decreases config.num_blocks - b,
        {
            block_table.push(b as i32);
            assert(block_table@ =~= Seq::new((b + 1) as nat, |n: int| n as i32));
            b = b + 1;
        }
        SequenceState {
            kv_cache: zeroed(plane * 2),
            gdn_state: zeroed(mat),
            gdn_conv_state: zeroed(conv),
            block_table,
            kv_len: 0,
            seq_pos: 0,
            last_generated: None,
            generated: 0,
            max_tokens,
        }
    }

    /// Place one token's key and value. Rows of another width are ignored.
    pub fn store_kv(&mut self, config: &ModelConfig, k: &[u16], v: &[u16])
        requires
            roomy(*config),
            old(self).wf(*config),
            config.num_kv_heads > 0,
            old(self).kv_len < u64::MAX,
        ensures
            final(self).wf(*config),
            k@.len() != config.kv_width() || v@.len() != config.kv_width() ==> *final(self)
                == *old(self),
            k@.len() == config.kv_width() && v@.len() == config.kv_width() ==> {
                &&& *final(self) == (SequenceState {
                    kv_cache: final(self).kv_cache,
                    kv_len: (old(self).kv_len + 1) as u64,
                    ..*old(self)
                })
                &&& placed(
                    *config,
                    old(self).kv_cache@,
                    final(self).kv_cache@,
                    old(self).kv_len as int % config.num_kv_heads as int,
                    k@,
                    v@,
                )
            },
    {
        let width: u64 = config.gqa_kv_width();
        if k.len() as u64 != width || v.len() as u64 != width {
            return;
        }
        let ghost before = *self;
        let heads: u64 = config.num_kv_heads;
        let head: u64 = config.head_dim;
        let block: u64 = config.block_size;
        let plane: u64 = config.num_blocks * heads * block * head;
        let slot: u64 = self.kv_len % heads;
        let mut h: u64 = 0;
        while h < heads
            invariant
                roomy(*config),
                heads == config.num_kv_heads,
                head == config.head_dim,
                block == config.block_size,
                plane == kv_plane(*config),
                slot < heads,
                h <= heads,
                k@.len() == config.kv_width(),
                v@.len() == config.kv_width(),
                before.wf(*config),
                before.kv_len < u64::MAX,
                slot == before.kv_len % heads,
                *self == (SequenceState { kv_cache: self.kv_cache, ..before }),
                placed_until(
                    *config,
                    before.kv_cache@,
                    self.kv_cache@,
                    slot as int,
                    k@,
                    v@,
                    h as int,
                    0,
                ),
            decreases heads - h,
        {
            let mut d: u64 = 0;
            while d < head
                invariant
                    roomy(*config),
                    heads == config.num_kv_heads,
                    head == config.head_dim,
                    block == config.block_size,
                    plane == kv_plane(*config),
                    slot < heads,
                    h < heads,
                    d <= head,
                    k@.len() == config.kv_width(),
                    v@.len() == config.kv_width(),
                    before.wf(*config),
                    before.kv_len < u64::MAX,
                    slot == before.kv_len % heads,
                    *self == (SequenceState { kv_cache: self.kv_cache, ..before }),
                    placed_until(
                        *config,
                        before.kv_cache@,
                        self.kv_cache@,
                        slot as int,
                        k@,
                        v@,
                        h as int,
                        d as int,
                    ),
                decreases head - d,
            {
                proof {
                    kv_index_fits(*config, slot as int, h as int, d as int);
                }
                let index: u64 = (h * block + slot) * head + d;
                if index < plane {
                    let ghost was = self.kv_cache@;
                    let from: u64 = h * head + d;
                    self.kv_cache.set(index as usize, k[from as usize]);
                    self.kv_cache.set((plane + index) as usize, v[from as usize]);
                    proof {
                        assert(touched(*config, slot as int, index as int)) by {
                            assert(index == kv_index(*config, slot as int, h as int, d as int));
                        }
                        assert(touched(*config, slot as int, plane + index)) by {
                            assert(plane + index == plane + kv_index(
                                *config,
                                slot as int,
                                h as int,
                                d as int,
                            ));
                        }
                        assert forall|h2: int, d2: int|
                            0 <= h2 < config.num_kv_heads && 0 <= d2 < config.head_dim && (h2 < h
                                || h2 == h && d2 < d + 1) && (#[trigger] kv_index(
                                *config,
                                slot as int,
                                h2,
                                d2,
                            )) < plane implies self.kv_cache@[kv_index(
                            *config,
                            slot as int,
                            h2,
                            d2,
                        )] == k@[h2 * config.head_dim + d2] && self.kv_cache@[plane + kv_index(
                            *config,
                            slot as int,
                            h2,
                            d2,
                        )] == v@[h2 * config.head_dim + d2] by {
                            kv_index_fits(*config, slot as int, h2, d2);
                            if kv_index(*config, slot as int, h2, d2) == index {
                                kv_index_is_unique(
                                    *config,
                                    slot as int,
                                    h as int,
                                    d as int,
                                    h2,
                                    d2,
                                );
                            }
                        }
                    }
                }
                d = d + 1;
            }
            h = h + 1;
        }
        self.kv_len = self.kv_len + 1;
    }

    /// Make the sequence fresh again after a pass that failed half-way. The
    /// cache is left as it is: what was written is written over.
    pub fn reset_fresh(&mut self)
        requires
            old(self).gdn_state@.len() <= u64::MAX,
            old(self).gdn_conv_state@.len() <= u64::MAX,
        ensures
            final(self).gdn_state@ == zeros(old(self).gdn_state@.len() as int),
            final(self).gdn_conv_state@ == zeros(old(self).gdn_conv_state@.len() as int),
            *final(self) == (SequenceState {
                kv_len: 0,
                seq_pos: 0,
                generated: 0,
                last_generated: None,
                gdn_state: final(self).gdn_state,
                gdn_conv_state: final(self).gdn_conv_state,
                ..*old(self)
            }),
    {
        self.kv_len = 0;
        self.seq_pos = 0;
        self.generated = 0;
        self.last_generated = None;
        let mat: u64 = self.gdn_state.len() as u64;
        let conv: u64 = self.gdn_conv_state.len() as u64;
        self.gdn_state = zeroed(mat);
        self.gdn_conv_state = zeroed(conv);
    }

    /// A pass over the prompt `tokens` is complete: its keys are placed, as far
    /// as there is room, and decoding starts from its last token.
    pub fn prefilled(&mut self, config: &ModelConfig, tokens: &[TokenId])
        requires
            kv_room(*config) <= u64::MAX,
            tokens@.len() <= u64::MAX,
        ensures
            final(self).kv_len <= config.num_blocks * config.block_size,
            tokens@.len() <= config.num_blocks * config.block_size ==> final(self).kv_len
                == tokens@.len(),
            tokens@.len() > config.num_blocks * config.block_size ==> final(self).kv_len
                == config.num_blocks * config.block_size,
            *final(self) == (SequenceState {
                kv_len: if tokens@.len() <= kv_room(*config) {
                    tokens@.len() as u64
                } else {
                    kv_room(*config) as u64
                },
                last_generated: if tokens@.len() > 0 {
                    Some(tokens@.last())
                } else {
                    old(self).last_generated
                },
                ..*old(self)
            }),
    {
        let room: u64 = config.num_blocks * config.block_size;
        let seq: u64 = tokens.len() as u64;
        self.kv_len = if seq <= room {
            seq
        } else {
            room
        };
        if tokens.len() > 0 {
            self.last_generated = Some(tokens[tokens.len() - 1]);
        }
    }

    /// The token the next decode step starts from.
    pub fn query_token(&self) -> (token: TokenId)
        ensures
            token == (match self.last_generated {
                Some(token) => token,
                None => 0,
            }),
    {
        match self.last_generated {
            Some(token) => token,
            None => 0,
        }
    }

    /// The cap on what is generated: the request's own, or else the job's.
    pub open spec fn cap(self, job_max: Option<u32>) -> u32 {
        match (self.max_tokens, job_max) {
            (Some(own), _) => own,
            (None, Some(job)) => job,
            (None, None) => u32::MAX,
        }
    }

    /// A decode step drew `token`. The token that reaches the cap is not given
    /// out: the step is a soft stop.
    pub fn drew(&mut self, token: TokenId, job_max: Option<u32>) -> (out: Option<TokenId>)
        requires
            old(self).generated < u32::MAX,
        ensures
            final(self).generated < u32::MAX,
            // The request's own cap goes before the job's; without either there is
            // none.
            out matches Some(given) ==> given == token,
            old(self).max_tokens matches Some(own) ==> (out is Some <==> old(self).generated + 1
                < own),
            old(self).max_tokens is None ==> (job_max matches Some(job) ==> (out is Some
                <==> old(self).generated + 1 < job)),
            old(self).max_tokens is None && job_max is None ==> (out is Some
                <==> old(self).generated + 1 < u32::MAX),
            out == (if old(self).generated + 1 >= old(self).cap(job_max) {
                None
            } else {
                Some(token)
            }),
            *final(self) == (SequenceState {
                last_generated: Some(token),
                generated: if out is Some {
                    (old(self).generated + 1) as u32
                } else {
                    old(self).generated
                },
                ..*old(self)
            }),
    {
        self.last_generated = Some(token);
        let cap: u32 = match self.max_tokens {
            Some(own) => own,
            None => match job_max {
                Some(job) => job,
                None => u32::MAX,
            },
        };
        if self.generated + 1 >= cap {
            None
        } else {
            self.generated = self.generated + 1;
            Some(token)
        }
    }
}

} // verus!
