//! The sizes of what the kernel leaf writes.

use vstd::prelude::*;

verus! {

/// The elements of a batched attention's output:
/// `[batch][seq_len][num_q_heads][head_dim]`.
pub fn gqa_prefill_out_elems(batch: u64, seq_len: u64, num_q_heads: u64, head_dim: u64) -> (elems:
    u64)
    requires
        batch * seq_len <= u64::MAX,
        batch * seq_len * num_q_heads <= u64::MAX,
        batch * seq_len * num_q_heads * head_dim <= u64::MAX,
    ensures
        elems == batch * seq_len * num_q_heads * head_dim,
{
    batch * seq_len * num_q_heads * head_dim
}

/// Its size in bytes, two to an element.
pub fn gqa_prefill_out_bytes(batch: u64, seq_len: u64, num_q_heads: u64, head_dim: u64) -> (bytes:
    u64)
    requires
        batch * seq_len <= u64::MAX,
        batch * seq_len * num_q_heads <= u64::MAX,
        batch * seq_len * num_q_heads * head_dim * 2 <= u64::MAX,
    ensures
        bytes == batch * seq_len * num_q_heads * head_dim * 2,
{
    gqa_prefill_out_elems(batch, seq_len, num_q_heads, head_dim) * 2
}

/// The elements of a GDN state:
/// `[batch][num_gdn_layers][state_rows][state_cols]`.
pub fn gdn_state_elems(batch: u64, num_gdn_layers: u64, state_rows: u64, state_cols: u64) -> (elems:
    u64)
    requires
        batch * num_gdn_layers <= u64::MAX,
        batch * num_gdn_layers * state_rows <= u64::MAX,
        batch * num_gdn_layers * state_rows * state_cols <= u64::MAX,
    ensures
        elems == batch * num_gdn_layers * state_rows * state_cols,
{
    batch * num_gdn_layers * state_rows * state_cols
}

/// The elements of an embedding lookup's output: `[batch][hidden]`.
pub fn embedding_out_elems(batch: u64, hidden: u64) -> (elems: u64)
    requires
        batch * hidden <= u64::MAX,
    ensures
        elems == batch * hidden,
{
    batch * hidden
}

} // verus!
