//! The attention-input tap: the rotated queries of chosen positions and the
//! rotated keys of every position, for chosen GQA layers, captured during one
//! prefill.
//!
//! This module sizes the buffers, says in which order the tap is armed, run and
//! disarmed, and finds the rows again.

use vstd::prelude::*;

verus! {

/// Query heads of a GQA layer.
pub const Q_HEADS: usize = 24;

/// KV heads of a GQA layer.
pub const KV_HEADS: usize = 4;

/// The dimensions of a head.
pub const HEAD_DIM: usize = 256;

/// GQA layers of the model; the `o`-th is layer `4 * o + 3` of the stack.
pub const GQA_LAYERS: usize = 16;

/// The KV head a query head reads.
pub fn kv_head_of(q_head: usize) -> (kv_head: usize)
    ensures
        kv_head == q_head as int / 6,
        kv_head * (Q_HEADS / KV_HEADS) <= q_head < (kv_head + 1) * (Q_HEADS / KV_HEADS),
        q_head < Q_HEADS ==> kv_head < KV_HEADS,
{
    q_head / (Q_HEADS / KV_HEADS)
}

/// What one armed prefill captured. Rows are bf16 patterns.
#[derive(Debug)]
pub struct AttnTapCapture {
    /// The armed layers, by their place among the GQA layers.
    pub ordinals: Vec<i32>,
    pub query_positions: Vec<i64>,
    /// Key rows to a layer.
    pub max_positions: i64,
    /// `[layer][query][head][dim]`.
    pub q: Vec<u16>,
    /// `[layer][position][kv head][dim]`.
    pub k: Vec<u16>,
    /// Key rows each layer wrote.
    pub rows_written: Vec<i64>,
    /// 1 for a query position every layer saw.
    pub queries_seen: Vec<i32>,
    /// The keys attention consumed, laid out like `k`; empty unless asked for.
    pub kc: Vec<u16>,
    /// Consumed rows each layer copied.
    pub consumed_rows: Vec<i64>,
    /// Where each layer's captured chunk began; -1 where none was.
    pub consumed_chunk_start: Vec<i64>,
}

/// The positions a capture holds of a layer: none for a negative count.
pub open spec fn positions(max_positions: i64) -> int {
    if max_positions > 0 {
        max_positions as int
    } else {
        0
    }
}

/// Where a query row begins.
pub open spec fn query_at(queries: int, layer: int, query: int, q_head: int) -> int {
    ((layer * queries + query) * Q_HEADS + q_head) * HEAD_DIM
}

/// Where a key row begins.
pub open spec fn key_at(max_positions: int, layer: int, position: int, kv_head: int) -> int {
    ((layer * max_positions + position) * KV_HEADS + kv_head) * HEAD_DIM
}

/// The size of the query buffer.
pub open spec fn query_size(layers: int, queries: int) -> int {
    layers * queries * Q_HEADS * HEAD_DIM
}

/// The size of a key buffer.
pub open spec fn key_size(layers: int, max_positions: int) -> int {
    layers * max_positions * KV_HEADS * HEAD_DIM
}

/// Query rows stand one after the other from the buffer's start: the heads of a
/// query, the queries of a layer in the order their positions were given, the
/// layers in the order they were armed.
pub proof fn query_rows_stand_in_order(queries: int, layer: int, query: int, q_head: int)
    ensures
        query_at(queries, 0, 0, 0) == 0,
        query_at(queries, layer, query, q_head + 1) == query_at(queries, layer, query, q_head)
            + HEAD_DIM,
        query_at(queries, layer, query + 1, q_head) == query_at(queries, layer, query, q_head)
            + Q_HEADS * HEAD_DIM,
        query_at(queries, layer + 1, query, q_head) == query_at(queries, layer, query, q_head)
            + queries * Q_HEADS * HEAD_DIM,
        query_at(queries, layer + 1, 0, 0) == query_at(queries, layer, queries - 1, Q_HEADS - 1)
            + HEAD_DIM,
{
    assert((layer + 1) * queries == layer * queries + queries) by (nonlinear_arith);
    assert(0 * queries == 0);
}

/// Key rows stand one after the other from the buffer's start: the KV heads of
/// a position, the positions of a layer, the layers in the order they were
/// armed.
pub proof fn key_rows_stand_in_order(max_positions: int, layer: int, position: int, kv_head: int)
    ensures
        key_at(max_positions, 0, 0, 0) == 0,
        key_at(max_positions, layer, position, kv_head + 1) == key_at(
            max_positions,
            layer,
            position,
            kv_head,
        ) + HEAD_DIM,
        key_at(max_positions, layer, position + 1, kv_head) == key_at(
            max_positions,
            layer,
            position,
            kv_head,
        ) + KV_HEADS * HEAD_DIM,
        key_at(max_positions, layer + 1, position, kv_head) == key_at(
            max_positions,
            layer,
            position,
            kv_head,
        ) + max_positions * KV_HEADS * HEAD_DIM,
        key_at(max_positions, layer + 1, 0, 0) == key_at(
            max_positions,
            layer,
            max_positions - 1,
            KV_HEADS - 1,
        ) + HEAD_DIM,
{
    assert((layer + 1) * max_positions == layer * max_positions + max_positions)
        by (nonlinear_arith);
    assert(0 * max_positions == 0);
}

/// The buffers hold every row of every armed layer and nothing past them: the
/// last row ends where the buffer does.
pub proof fn the_last_row_ends_the_buffer(layers: int, rows: int)
    requires
        layers > 0,
    ensures
        query_at(rows, layers - 1, rows - 1, Q_HEADS - 1) + HEAD_DIM == query_size(layers, rows),
        key_at(rows, layers - 1, rows - 1, KV_HEADS - 1) + HEAD_DIM == key_size(layers, rows),
{
    assert((layers - 1) * rows + rows == layers * rows) by (nonlinear_arith);
}

impl AttnTapCapture {
    /// The buffers are as large as what was armed.
    pub open spec fn wf(self) -> bool {
        let layers = self.ordinals@.len() as int;
        let queries = self.query_positions@.len() as int;
        &&& self.q@.len() == query_size(layers, queries)
        &&& self.k@.len() == key_size(layers, positions(self.max_positions))
        &&& self.kc@.len() == self.k@.len() || self.kc@.len() == 0
        &&& self.rows_written@.len() == layers
        &&& self.queries_seen@.len() == queries
        &&& self.consumed_rows@.len() == layers
        &&& self.consumed_chunk_start@.len() == layers
    }

    /// The query row of a head, at a query of a layer.
    pub fn query(&self, layer: usize, query: usize, q_head: usize) -> (row: &[u16])
        requires
            self.wf(),
            layer < self.ordinals@.len(),
            query < self.query_positions@.len(),
            q_head < Q_HEADS,
        ensures
            row@ == self.q@.subrange(
                query_at(
                    self.query_positions@.len() as int,
                    layer as int,
                    query as int,
                    q_head as int,
                ),
                query_at(
                    self.query_positions@.len() as int,
                    layer as int,
                    query as int,
                    q_head as int,
                ) + HEAD_DIM,
            ),
            row@.len() == HEAD_DIM,
            // Past the rows of the layers, the queries and the heads before it.
            forall|d: int|
                0 <= d < HEAD_DIM ==> #[trigger] row@[d] == self.q@[layer * (
                self.query_positions@.len() * (Q_HEADS * HEAD_DIM)) + query * (Q_HEADS * HEAD_DIM)
                    + q_head * HEAD_DIM + d],
    {
        proof {
            let n = self.query_positions@.len() as int;
            strided(layer as int, n, query as int, Q_HEADS as int, q_head as int);
            row_is_inside(
                self.ordinals@.len() as int,
                n,
                Q_HEADS as int,
                layer as int,
                query as int,
                q_head as int,
            );
            assert(self.q@.len() == self.q.len());
        }
        let n_queries: usize = self.query_positions.len();
        let at: usize = ((layer * n_queries + query) * Q_HEADS + q_head) * HEAD_DIM;
        vstd::slice::slice_subrange(self.q.as_slice(), at, at + HEAD_DIM)
    }

    /// The key row of a KV head, at a position of a layer.
    pub fn key(&self, layer: usize, position: usize, kv_head: usize) -> (row: &[u16])
        requires
            self.wf(),
            layer < self.ordinals@.len(),
            position < positions(self.max_positions),
            kv_head < KV_HEADS,
        ensures
            row@ == self.k@.subrange(
                key_at(
                    self.max_positions as int,
                    layer as int,
                    position as int,
                    kv_head as int,
                ),
                key_at(
                    self.max_positions as int,
                    layer as int,
                    position as int,
                    kv_head as int,
                ) + HEAD_DIM,
            ),
            row@.len() == HEAD_DIM,
            // Past the rows of the layers, the positions and the heads before it.
            forall|d: int|
                0 <= d < HEAD_DIM ==> #[trigger] row@[d] == self.k@[layer * (self.max_positions * (
                KV_HEADS * HEAD_DIM)) + position * (KV_HEADS * HEAD_DIM) + kv_head * HEAD_DIM + d],
    {
        proof {
            let n = self.max_positions as int;
            strided(layer as int, n, position as int, KV_HEADS as int, kv_head as int);
        }
        let at: usize = self.key_place(layer, position, kv_head, &self.k);
        assert(self.k@.len() == self.k.len());
        vstd::slice::slice_subrange(self.k.as_slice(), at, at + HEAD_DIM)
    }

    /// The consumed key row of a KV head, at a position of a layer.
    pub fn consumed_key(&self, layer: usize, position: usize, kv_head: usize) -> (row: &[u16])
        requires
            self.wf(),
            self.kc@.len() == self.k@.len(),
            layer < self.ordinals@.len(),
            position < positions(self.max_positions),
            kv_head < KV_HEADS,
        ensures
            row@ == self.kc@.subrange(
                key_at(
                    self.max_positions as int,
                    layer as int,
                    position as int,
                    kv_head as int,
                ),
                key_at(
                    self.max_positions as int,
                    layer as int,
                    position as int,
                    kv_head as int,
                ) + HEAD_DIM,
            ),
            row@.len() == HEAD_DIM,
            // Past the rows of the layers, the positions and the heads before it.
            forall|d: int|
                0 <= d < HEAD_DIM ==> #[trigger] row@[d] == self.kc@[layer * (self.max_positions * (
                KV_HEADS * HEAD_DIM)) + position * (KV_HEADS * HEAD_DIM) + kv_head * HEAD_DIM + d],
    {
        proof {
            let n = self.max_positions as int;
            strided(layer as int, n, position as int, KV_HEADS as int, kv_head as int);
        }
        let at: usize = self.key_place(layer, position, kv_head, &self.kc);
        assert(self.kc@.len() == self.kc.len());
        vstd::slice::slice_subrange(self.kc.as_slice(), at, at + HEAD_DIM)
    }

    /// Where a key row begins, in a buffer that holds it.
    fn key_place(
        &self,
        layer: usize,
        position: usize,
        kv_head: usize,
        keys: &Vec<u16>,
    ) -> (at: usize)
        requires
            self.wf(),
            keys@.len() == self.k@.len(),
            layer < self.ordinals@.len(),
            position < positions(self.max_positions),
            kv_head < KV_HEADS,
        ensures
            at == key_at(
                self.max_positions as int,
                layer as int,
                position as int,
                kv_head as int,
            ),
            at + HEAD_DIM <= keys@.len(),
    {
        proof {
            row_is_inside(
                self.ordinals@.len() as int,
                self.max_positions as int,
                KV_HEADS as int,
                layer as int,
                position as int,
                kv_head as int,
            );
            assert(keys@.len() == keys.len());
            assert(self.max_positions <= keys@.len()) by {
                held_once(self.ordinals@.len() as int, self.max_positions as int);
            }
        }
        let max_positions: usize = self.max_positions as usize;
        ((layer * max_positions + position) * KV_HEADS + kv_head) * HEAD_DIM
    }
}

/// A row of a captured layer lies inside its buffer.
pub proof fn row_is_inside(layers: int, rows: int, heads: int, layer: int, row: int, head: int)
    requires
        0 <= layer < layers,
        0 <= row < rows,
        0 <= head < heads,
    ensures
        0 <= layer * rows <= layer * rows + row < layers * rows,
        0 <= (layer * rows + row) * heads + head < layers * rows * heads,
        0 <= (layer * rows + row) * heads,
        0 <= ((layer * rows + row) * heads + head) * HEAD_DIM,
        ((layer * rows + row) * heads + head) * HEAD_DIM + HEAD_DIM <= layers * rows * heads
            * HEAD_DIM,
        layers * rows <= layers * rows * heads <= layers * rows * heads * HEAD_DIM,
{
    let a = layer * rows + row;
    let b = layers * rows;
    assert(0 <= layer * rows && layer * rows + rows <= b) by (nonlinear_arith)
        requires
            0 <= layer,
            layer + 1 <= layers,
            0 <= rows,
            b == layers * rows,
    ;
    assert(0 <= a * heads && a * heads + heads <= b * heads && b <= b * heads) by (nonlinear_arith)
        requires
            0 <= a,
            a + 1 <= b,
            1 <= heads,
    ;
    let c = a * heads + head;
    let d = b * heads;
    assert(0 <= c && c + 1 <= d);
}

/// A row's place, layer by layer, row by row and head by head.
proof fn strided(layer: int, rows: int, row: int, heads: int, head: int)
    ensures
        ((layer * rows + row) * heads + head) * HEAD_DIM == layer * (rows * (heads * HEAD_DIM)) + row
            * (heads * HEAD_DIM) + head * HEAD_DIM,
{
    let a = layer * rows;
    let wide = heads * HEAD_DIM;
    assert((a + row) * heads == a * heads + row * heads) by (nonlinear_arith);
    assert((a * heads) * HEAD_DIM == a * wide) by (nonlinear_arith)
        requires
            wide == heads * HEAD_DIM,
    ;
    assert((row * heads) * HEAD_DIM == row * wide) by (nonlinear_arith)
        requires
            wide == heads * HEAD_DIM,
    ;
    assert(a * wide == layer * (rows * wide)) by (nonlinear_arith)
        requires
            a == layer * rows,
    ;
}

proof fn held_once(layers: int, rows: int)
    requires
        1 <= layers,
        0 <= rows,
    ensures
        rows <= key_size(layers, rows),
{
    assert(rows <= layers * rows) by (nonlinear_arith)
        requires
            1 <= layers,
            0 <= rows,
    ;
}

/// The buffers a prefill is captured into.
#[derive(Debug)]
pub struct TapBuffers {
    pub q: Vec<u16>,
    pub k: Vec<u16>,
    pub kc: Vec<u16>,
    pub rows_written: Vec<i64>,
    pub queries_seen: Vec<i32>,
    pub consumed_rows: Vec<i64>,
    pub consumed_chunk_start: Vec<i64>,
}

/// A buffer of one value.
fn filled<T: Copy>(n: usize, value: T) -> (buffer: Vec<T>)
    ensures
        buffer@ == Seq::new(n as nat, |i: int| value),
{
    let mut buffer: Vec<T> = Vec::new();
    let mut i: usize = 0;
    while i < n
        invariant
            i <= n,
            buffer@ == Seq::new(i as nat, |j: int| value),
        decreases n - i,
    {
        buffer.push(value);
        assert(buffer@ =~= Seq::new((i + 1) as nat, |j: int| value));
        i = i + 1;
    }
    buffer
}

impl TapBuffers {
    /// Empty buffers for this many layers, queries and positions.
    pub fn new(layers: usize, queries: usize, max_positions: i64, consumed: bool) -> (buffers:
        TapBuffers)
        requires
            layers * queries <= usize::MAX,
            query_size(layers as int, queries as int) <= usize::MAX,
            positions(max_positions) <= usize::MAX,
            layers * positions(max_positions) <= usize::MAX,
            key_size(layers as int, positions(max_positions)) <= usize::MAX,
        ensures
            buffers.q@ == Seq::new(
                query_size(layers as int, queries as int) as nat,
                |i: int| 0u16,
            ),
            buffers.k@ == Seq::new(
                key_size(layers as int, positions(max_positions)) as nat,
                |i: int| 0u16,
            ),
            buffers.kc@ == (if consumed {
                buffers.k@
            } else {
                Seq::empty()
            }),
            buffers.q@.len() == layers * queries * 24 * 256,
            max_positions > 0 ==> buffers.k@.len() == layers * max_positions * 4 * 256,
            max_positions <= 0 ==> buffers.k@.len() == 0,
            consumed ==> buffers.kc@.len() == buffers.k@.len(),
            !consumed ==> buffers.kc@.len() == 0,
            buffers.rows_written@ == Seq::new(layers as nat, |i: int| 0i64),
            buffers.queries_seen@ == Seq::new(queries as nat, |i: int| 0i32),
            buffers.consumed_rows@ == Seq::new(layers as nat, |i: int| 0i64),
            buffers.consumed_chunk_start@ == Seq::new(layers as nat, |i: int| -1i64),
    {
        let rows: usize = if max_positions > 0 {
            max_positions as usize
        } else {
            0
        };
        proof {
            scaled(layers * queries, Q_HEADS as int);
            scaled(layers * rows, KV_HEADS as int);
        }
        let keys: usize = layers * rows * KV_HEADS * HEAD_DIM;
        let kc: Vec<u16> = if consumed {
            filled(keys, 0u16)
        } else {
            Vec::new()
        };
        let buffers = TapBuffers {
            q: filled(layers * queries * Q_HEADS * HEAD_DIM, 0u16),
            k: filled(keys, 0u16),
            kc,
            rows_written: filled(layers, 0i64),
            queries_seen: filled(queries, 0i32),
            consumed_rows: filled(layers, 0i64),
            consumed_chunk_start: filled(layers, -1i64),
        };
        assert(!consumed ==> buffers.kc@ =~= Seq::empty());
        buffers
    }

    /// The capture these buffers hold, as large as they were made.
    pub fn into_capture(
        self,
        ordinals: Vec<i32>,
        query_positions: Vec<i64>,
        max_positions: i64,
    ) -> (capture: AttnTapCapture)
        requires
            self.q@.len() == query_size(ordinals@.len() as int, query_positions@.len() as int),
            self.k@.len() == key_size(ordinals@.len() as int, positions(max_positions)),
            self.kc@.len() == self.k@.len() || self.kc@.len() == 0,
            self.rows_written@.len() == ordinals@.len(),
            self.queries_seen@.len() == query_positions@.len(),
            self.consumed_rows@.len() == ordinals@.len(),
            self.consumed_chunk_start@.len() == ordinals@.len(),
        ensures
            capture.wf(),
            capture == (AttnTapCapture {
                ordinals,
                query_positions,
                max_positions,
                q: self.q,
                k: self.k,
                rows_written: self.rows_written,
                queries_seen: self.queries_seen,
                kc: self.kc,
                consumed_rows: self.consumed_rows,
                consumed_chunk_start: self.consumed_chunk_start,
            }),
    {
        AttnTapCapture {
            ordinals,
            query_positions,
            max_positions,
            q: self.q,
            k: self.k,
            rows_written: self.rows_written,
            queries_seen: self.queries_seen,
            kc: self.kc,
            consumed_rows: self.consumed_rows,
            consumed_chunk_start: self.consumed_chunk_start,
        }
    }
}

proof fn scaled(x: int, by: int)
    requires
        0 <= x,
        1 <= by,
    ensures
        0 <= x <= x * by <= x * by * HEAD_DIM,
{
    assert(x <= x * by) by (nonlinear_arith)
        requires
            0 <= x,
            1 <= by,
    ;
}

/// One step of a tapped prefill.
#[derive(Debug, Clone, Copy, PartialEq, Eq, Structural)]
pub enum TapStep {
    /// Arm the tap.
    Arm,
    /// Arm it for the consumed keys too.
    ArmConsumed,
    /// Run the prefill.
    Run,
    /// Disarm and keep what was captured.
    Disarm,
    /// Disarm and keep nothing.
    Discard,
    /// Hand out the capture.
    Finish,
    /// Report the leaf's error.
    Refuse,
}

/// What follows a step that came back with `rc`.
pub open spec fn follows(consumed: bool, step: TapStep, rc: i32) -> TapStep {
    match step {
        TapStep::Arm => if rc != 0 {
            TapStep::Refuse
        } else if consumed {
            TapStep::ArmConsumed
        } else {
            TapStep::Run
        },
        TapStep::ArmConsumed => if rc != 0 {
            TapStep::Discard
        } else {
            TapStep::Run
        },
        TapStep::Run => TapStep::Disarm,
        TapStep::Disarm => if rc != 0 {
            TapStep::Refuse
        } else {
            TapStep::Finish
        },
        TapStep::Discard => TapStep::Refuse,
        TapStep::Finish => TapStep::Finish,
        TapStep::Refuse => TapStep::Refuse,
    }
}

/// What follows a step that came back with `rc`.
pub fn tap_next(consumed: bool, step: TapStep, rc: i32) -> (next: TapStep)
    ensures
        next == follows(consumed, step, rc),
{
    match step {
        TapStep::Arm => if rc != 0 {
            TapStep::Refuse
        } else if consumed {
            TapStep::ArmConsumed
        } else {
            TapStep::Run
        },
        TapStep::ArmConsumed => if rc != 0 {
            TapStep::Discard
        } else {
            TapStep::Run
        },
        TapStep::Run => TapStep::Disarm,
        TapStep::Disarm => if rc != 0 {
            TapStep::Refuse
        } else {
            TapStep::Finish
        },
        TapStep::Discard => TapStep::Refuse,
        TapStep::Finish => TapStep::Finish,
        TapStep::Refuse => TapStep::Refuse,
    }
}

/// Whether the tap is armed after a step came back with `rc`, having been
/// armed before it or not.
pub open spec fn armed_after(armed: bool, step: TapStep, rc: i32) -> bool {
    match step {
        TapStep::Arm => rc == 0,
        TapStep::Disarm | TapStep::Discard => false,
        _ => armed,
    }
}

/// The tap is armed exactly while its steps say so.
pub open spec fn expects_armed(step: TapStep) -> bool {
    match step {
        TapStep::ArmConsumed | TapStep::Run | TapStep::Disarm | TapStep::Discard => true,
        TapStep::Arm | TapStep::Finish | TapStep::Refuse => false,
    }
}

/// Nothing leaves the tap armed: it is armed before every step that needs it
/// and disarmed before a prefill finishes or is refused, whatever the leaf
/// answers.
pub proof fn the_tap_is_always_disarmed(consumed: bool, step: TapStep, rc: i32)
    ensures
        armed_after(expects_armed(step), step, rc) == expects_armed(follows(consumed, step, rc)),
{
}

/// A tapped prefill whose every step comes back well arms, arms the consumed
/// keys where they are asked for, runs, disarms and hands the capture out, and
/// does nothing twice.
pub proof fn a_tapped_prefill_runs_once(consumed: bool)
    ensures
        consumed ==> follows(consumed, TapStep::Arm, 0) == TapStep::ArmConsumed && follows(
            consumed,
            TapStep::ArmConsumed,
            0,
        ) == TapStep::Run,
        !consumed ==> follows(consumed, TapStep::Arm, 0) == TapStep::Run,
        follows(consumed, TapStep::Run, 0) == TapStep::Disarm,
        follows(consumed, TapStep::Disarm, 0) == TapStep::Finish,
{
}

/// The capture is handed out only after a disarm that came back well, and the
/// prefill runs only once all that was to be armed is; a step that failed is
/// answered by a refusal, straight away or once the tap is disarmed. Whatever
/// the prefill itself came back with, the tap is disarmed.
pub proof fn a_failed_step_is_refused(consumed: bool, step: TapStep, rc: i32)
    ensures
        follows(consumed, step, rc) == TapStep::Finish ==> step == TapStep::Finish || (step
            == TapStep::Disarm && rc == 0),
        follows(consumed, step, rc) == TapStep::Run ==> rc == 0 && (step == TapStep::ArmConsumed
            || (step == TapStep::Arm && !consumed)),
        rc != 0 && (step == TapStep::Arm || step == TapStep::Disarm) ==> follows(consumed, step, rc)
            == TapStep::Refuse,
        rc != 0 && step == TapStep::ArmConsumed ==> follows(consumed, step, rc) == TapStep::Discard,
        follows(consumed, TapStep::Discard, rc) == TapStep::Refuse,
        follows(consumed, TapStep::Run, rc) == TapStep::Disarm,
        follows(consumed, TapStep::Refuse, rc) == TapStep::Refuse,
        follows(consumed, TapStep::Finish, rc) == TapStep::Finish,
{
}

/// The engine's hash of a coordinate.
pub open spec fn engine_hash(d: u32) -> u32 {
    let a = 0x005E_ED01u32 ^ d.wrapping_mul(0x9E37_79B9);
    let b = (a ^ (a >> 16u32)).wrapping_mul(0x85EB_CA6B);
    b ^ (b >> 13u32)
}

/// The engine-wide sign of a coordinate: the lowest bit of its hash.
pub fn hq_engine_sign(d: u32) -> (sign: i32)
    ensures
        sign == (if engine_hash(d) & 1 == 1 {
            1i32
        } else {
            -1i32
        }),
{
    let mut x: u32 = 0x005E_ED01u32 ^ d.wrapping_mul(0x9E37_79B9);
    x = x ^ (x >> 16u32);
    x = x.wrapping_mul(0x85EB_CA6B);
    x = x ^ (x >> 13u32);
    if x & 1 == 1 {
        1
    } else {
        -1
    }
}

/// Multiplying by `c` is undone by multiplying by `back`, where the two are
/// inverse to each other.
proof fn mul_is_undone(x: u32, c: u32, back: u32)
    requires
        (c * back) % 0x1_0000_0000 == 1,
    ensures
        x.wrapping_mul(c).wrapping_mul(back) == x,
{
    let m: int = 0x1_0000_0000;
    vstd::arithmetic::div_mod::lemma_mul_mod_noop_left(x * c, back as int, m);
    vstd::arithmetic::div_mod::lemma_mul_mod_noop_right(x as int, c * back, m);
    vstd::arithmetic::mul::lemma_mul_is_associative(x as int, c as int, back as int);
    vstd::arithmetic::div_mod::lemma_small_mod(x as nat, m as nat);
    vstd::arithmetic::div_mod::lemma_small_mod(1, m as nat);
}

/// No two coordinates have one hash.
pub proof fn coordinates_are_hashed_apart(d: u32, e: u32)
    requires
        d != e,
    ensures
        engine_hash(d) != engine_hash(e),
{
    assert((0x9E37_79B9u32 * 0x144C_BC89u32) % 0x1_0000_0000 == 1);
    assert((0x85EB_CA6Bu32 * 0xA5CB_9243u32) % 0x1_0000_0000 == 1);
    mul_is_undone(d, 0x9E37_79B9u32, 0x144C_BC89u32);
    mul_is_undone(e, 0x9E37_79B9u32, 0x144C_BC89u32);
    let (p, q) = (d.wrapping_mul(0x9E37_79B9), e.wrapping_mul(0x9E37_79B9));
    assert(p != q);
    let (a, b) = (0x005E_ED01u32 ^ p, 0x005E_ED01u32 ^ q);
    assert(p != q ==> 0x005E_ED01u32 ^ p != 0x005E_ED01u32 ^ q) by (bit_vector);
    let (x, y) = (a ^ (a >> 16u32), b ^ (b >> 16u32));
    assert(a != b ==> a ^ (a >> 16u32) != b ^ (b >> 16u32)) by (bit_vector);
    mul_is_undone(x, 0x85EB_CA6Bu32, 0xA5CB_9243u32);
    mul_is_undone(y, 0x85EB_CA6Bu32, 0xA5CB_9243u32);
    let (u, v) = (x.wrapping_mul(0x85EB_CA6B), y.wrapping_mul(0x85EB_CA6B));
    assert(u != v);
    assert(u != v ==> u ^ (u >> 13u32) != v ^ (v >> 13u32)) by (bit_vector);
}

} // verus!
